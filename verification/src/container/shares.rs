use std::collections::HashMap;
use std::collections::HashSet;
use vstd::arithmetic::div_mod::lemma_div_is_ordered;
use vstd::arithmetic::div_mod::lemma_div_multiples_vanish;
use vstd::arithmetic::div_mod::lemma_div_multiples_vanish_quotient;
use vstd::arithmetic::div_mod::lemma_fundamental_div_mod;
use vstd::arithmetic::div_mod::lemma_mod_bound;
use vstd::prelude::*;
use vstd::std_specs::iter::IteratorSpec;

use crate::tile_id::TileId;

verus! {

/// The weight that stands for a share of one: weights are fixed-point numbers
/// with sixteen fractional bits.
pub const ONE_SHARE: u32 = 65536;

/// The weight that a table of shares gives to a child: its entry, or a share
/// of one where it has none.
pub open spec fn weight_of(shares: Map<u64, u32>, id: TileId) -> nat {
    if shares.contains_key(id.0) {
        shares[id.0] as nat
    } else {
        ONE_SHARE as nat
    }
}

/// The weights of the given children, in order.
pub open spec fn weights_of(shares: Map<u64, u32>, children: Seq<TileId>) -> Seq<nat> {
    Seq::new(children.len(), |i: int| weight_of(shares, children[i]))
}

/// The sum of a sequence of lengths or weights.
pub open spec fn total(ws: Seq<nat>) -> nat
    decreases ws.len(),
{
    if ws.len() == 0 {
        0
    } else {
        total(ws.drop_last()) + ws.last()
    }
}

/// The weights by which an extent is split: the weights as they are, or a
/// weight of one for each child where they add up to nothing.
pub open spec fn effective(ws: Seq<nat>) -> Seq<nat> {
    if total(ws) == 0 {
        Seq::new(ws.len(), |i: int| 1nat)
    } else {
        ws
    }
}

/// Where the first `k` children end: the part of `available` that falls to
/// their weights together, rounded down.
pub open spec fn split_mark(ws: Seq<nat>, available: nat, k: int) -> nat {
    if total(effective(ws)) == 0 {
        0
    } else {
        available * total(effective(ws).take(k)) / total(effective(ws))
    }
}

/// The extents into which `available` is split among children of the given
/// weights: each child reaches from where the children before it end to
/// where they end together with it, so that nothing of `available` is left.
pub open spec fn split_extents(ws: Seq<nat>, available: nat) -> Seq<nat> {
    Seq::new(
        ws.len(),
        |i: int| (split_mark(ws, available, i + 1) - split_mark(ws, available, i)) as nat,
    )
}

/// Whether the extent of child `i` is less than one point away from its
/// exact share of `available`.
pub open spec fn near_share(ws: Seq<nat>, available: nat, i: int) -> bool {
    let sum = total(effective(ws));
    let extent = split_extents(ws, available)[i];
    &&& sum * extent < available * effective(ws)[i] + sum
    &&& available * effective(ws)[i] < sum * extent + sum
}

/// Each weight multiplied by `c`.
pub open spec fn scaled(ws: Seq<nat>, c: nat) -> Seq<nat> {
    Seq::new(ws.len(), |i: int| c * ws[i])
}

/// The sum of a prefix grows by the element that the prefix takes in.
pub proof fn lemma_total_prefix(ws: Seq<nat>, k: int)
    requires
        0 <= k < ws.len(),
    ensures
        total(ws.take(k + 1)) == total(ws.take(k)) + ws[k],
{
    assert(ws.take(k + 1).drop_last() =~= ws.take(k));
}

/// A prefix adds up to no more than the whole.
pub proof fn lemma_total_take_le(ws: Seq<nat>, k: int)
    requires
        0 <= k <= ws.len(),
    ensures
        total(ws.take(k)) <= total(ws),
    decreases ws.len() - k,
{
    if k < ws.len() {
        lemma_total_take_le(ws, k + 1);
        lemma_total_prefix(ws, k);
    } else {
        assert(ws.take(k) =~= ws);
    }
}

proof fn lemma_total_constant(ws: Seq<nat>, e: nat)
    requires
        forall|i: int| 0 <= i < ws.len() ==> ws[i] == e,
    ensures
        total(ws) == ws.len() * e,
    decreases ws.len(),
{
    if ws.len() > 0 {
        lemma_total_constant(ws.drop_last(), e);
        assert(ws.len() * e == (ws.len() - 1) * e + e) by (nonlinear_arith);
    } else {
        assert(0 * e == 0) by (nonlinear_arith);
    }
}

/// Where there is a child, the weights by which an extent is split add up
/// to more than nothing.
pub proof fn lemma_effective_total(ws: Seq<nat>)
    ensures
        effective(ws).len() == ws.len(),
        ws.len() > 0 ==> total(effective(ws)) > 0,
        total(ws) == 0 ==> total(effective(ws)) == ws.len(),
{
    if total(ws) == 0 {
        lemma_total_constant(effective(ws), 1);
        assert(ws.len() * 1 == ws.len()) by (nonlinear_arith);
    }
}

/// The marks begin at nothing, never go back, and end at `available`.
pub proof fn lemma_split_marks(ws: Seq<nat>, available: nat, k: int)
    requires
        0 <= k < ws.len(),
    ensures
        split_mark(ws, available, 0) == 0,
        split_mark(ws, available, k) <= split_mark(ws, available, k + 1),
        split_mark(ws, available, k + 1) <= available,
        split_mark(ws, available, ws.len() as int) == available,
{
    let e = effective(ws);
    let sum = total(e);
    lemma_effective_total(ws);
    let low = total(e.take(k));
    let high = total(e.take(k + 1));
    lemma_total_prefix(e, k);
    lemma_total_take_le(e, k + 1);
    assert(e.take(0).len() == 0);
    assert(available * 0 == 0) by (nonlinear_arith);
    assert(available * low <= available * high <= available * sum) by (nonlinear_arith)
        requires
            low <= high <= sum,
    ;
    lemma_div_is_ordered((available * low) as int, (available * high) as int, sum as int);
    lemma_div_is_ordered((available * high) as int, (available * sum) as int, sum as int);
    lemma_div_multiples_vanish(available as int, sum as int);
    assert(available * sum == sum * available) by (nonlinear_arith);
    assert(e.take(ws.len() as int) =~= e);
}

proof fn lemma_scaled_total(ws: Seq<nat>, c: nat)
    ensures
        total(scaled(ws, c)) == c * total(ws),
    decreases ws.len(),
{
    if ws.len() > 0 {
        lemma_scaled_total(ws.drop_last(), c);
        assert(scaled(ws, c).drop_last() =~= scaled(ws.drop_last(), c));
        assert(c * (total(ws.drop_last()) + ws.last()) == c * total(ws.drop_last()) + c
            * ws.last()) by (nonlinear_arith);
    } else {
        assert(c * 0 == 0) by (nonlinear_arith);
    }
}

/// Splitting is scale-invariant: multiplying every weight by the same positive
/// factor leaves every extent as it was.
pub proof fn lemma_split_scale_invariant(ws: Seq<nat>, c: nat, available: nat)
    requires
        c > 0,
    ensures
        split_extents(scaled(ws, c), available) == split_extents(ws, available),
{
    lemma_scaled_total(ws, c);
    let sum = total(ws);
    assert(c * sum == 0 <==> sum == 0) by (nonlinear_arith)
        requires
            c > 0,
    ;
    assert forall|k: int| 0 <= k <= ws.len() implies split_mark(scaled(ws, c), available, k)
        == split_mark(ws, available, k) by {
        if sum > 0 {
            let part = total(ws.take(k));
            assert(scaled(ws, c).take(k) =~= scaled(ws.take(k), c));
            lemma_scaled_total(ws.take(k), c);
            lemma_div_multiples_vanish_quotient(c as int, (available * part) as int, sum as int);
            assert(available * (c * part) == c * (available * part)) by (nonlinear_arith);
        } else {
            assert(effective(scaled(ws, c)) =~= effective(ws));
        }
    }
    assert(split_extents(scaled(ws, c), available) =~= split_extents(ws, available));
}

proof fn lemma_split_fills_prefix(ws: Seq<nat>, available: nat, k: int)
    requires
        0 <= k <= ws.len(),
    ensures
        total(split_extents(ws, available).take(k)) == split_mark(ws, available, k),
    decreases k,
{
    let es = split_extents(ws, available);
    if k == 0 {
        assert(es.take(0).len() == 0);
        if ws.len() > 0 {
            lemma_split_marks(ws, available, 0);
        } else {
            assert(effective(ws).take(0).len() == 0);
            assert(available * 0 == 0) by (nonlinear_arith);
        }
    } else {
        lemma_split_fills_prefix(ws, available, k - 1);
        lemma_total_prefix(es, k - 1);
        lemma_split_marks(ws, available, k - 1);
    }
}

/// Splitting leaves nothing over: where there is a child, the extents add up
/// to `available`.
pub proof fn lemma_split_fills(ws: Seq<nat>, available: nat)
    requires
        ws.len() > 0,
    ensures
        total(split_extents(ws, available)) == available,
{
    let es = split_extents(ws, available);
    lemma_split_fills_prefix(ws, available, ws.len() as int);
    lemma_split_marks(ws, available, 0);
    assert(es.take(ws.len() as int) =~= es);
}

/// Every extent is less than one point away from the exact share of its child.
pub proof fn lemma_split_near(ws: Seq<nat>, available: nat, i: int)
    requires
        0 <= i < ws.len(),
    ensures
        near_share(ws, available, i),
{
    let e = effective(ws);
    let sum = total(e);
    lemma_effective_total(ws);
    lemma_split_marks(ws, available, i);
    lemma_total_prefix(e, i);
    let low = total(e.take(i));
    let high = total(e.take(i + 1));
    let from = split_mark(ws, available, i);
    let to = split_mark(ws, available, i + 1);
    lemma_fundamental_div_mod((available * low) as int, sum as int);
    lemma_mod_bound((available * low) as int, sum as int);
    lemma_fundamental_div_mod((available * high) as int, sum as int);
    lemma_mod_bound((available * high) as int, sum as int);
    assert(sum * from <= available * low < sum * from + sum);
    assert(sum * to <= available * high < sum * to + sum);
    assert(available * high == available * low + available * e[i]) by (nonlinear_arith)
        requires
            high == low + e[i],
    ;
    assert(sum * (to - from) == sum * to - sum * from) by (nonlinear_arith);
}

/// The sum of all weights that a table of shares holds.
pub open spec fn table_total(shares: Map<u64, u32>) -> nat
    decreases shares.dom().len(),
    when shares.dom().finite()
{
    if shares.dom().len() == 0 {
        0
    } else {
        let k = shares.dom().choose();
        shares[k] as nat + table_total(shares.remove(k))
    }
}

/// The sum of a table is the weight of any one entry and the sum of the rest.
pub proof fn lemma_table_total_remove(shares: Map<u64, u32>, k: u64)
    requires
        shares.dom().finite(),
        shares.contains_key(k),
    ensures
        table_total(shares) == shares[k] as nat + table_total(shares.remove(k)),
    decreases shares.dom().len(),
{
    let c = shares.dom().choose();
    assert(shares.dom().len() > 0) by {
        if shares.dom().len() == 0 {
            assert(shares.dom() =~= Set::empty());
        }
    }
    if c != k {
        let rest = shares.remove(c);
        lemma_table_total_remove(rest, k);
        lemma_table_total_remove(shares.remove(k), c);
        assert(shares.remove(c).remove(k) =~= shares.remove(k).remove(c));
    }
}

/// What replacing `remove` by `new` makes of a table of shares: the weight of
/// `remove`, where it had one, moves to `new`.
pub open spec fn replaced(shares: Map<u64, u32>, remove: TileId, new: TileId) -> Map<u64, u32> {
    if shares.contains_key(remove.0) {
        shares.remove(remove.0).insert(new.0, shares[remove.0])
    } else {
        shares
    }
}

/// The numbers of the given tiles, as a set.
pub open spec fn id_set(ids: Seq<TileId>) -> Set<u64> {
    Set::new(|k: u64| ids.contains(TileId(k)))
}

/// The keys of a map, each once, in the order in which the map hands them out.
pub fn keys_of<V>(m: &HashMap<u64, V>) -> (keys: Vec<u64>)
    ensures
        keys@.to_set() == m@.dom(),
        keys@.no_duplicates(),
{
    let mut keys: Vec<u64> = Vec::new();
    let ghost all: Seq<u64> = m.keys().remaining().unref();
    for k in it: m.keys()
        invariant
            keys@.len() == it.index(),
            it.seq().unref() == all,
            forall|j: int| 0 <= j < keys@.len() ==> keys@[j] == *it.seq()[j],
    {
        keys.push(*k);
    }
    assert(keys@ =~= all);
    keys
}

/// How large a share of space each child of a linear container has.
///
/// A child without an entry has a share of one, [`ONE_SHARE`]. With shares of
/// one, two and three, the first child gets a sixth of the space, the second
/// two sixths and the third three sixths.
#[derive(Clone, Debug)]
pub struct Shares {
    shares: HashMap<u64, u32>,
}

impl View for Shares {
    type V = Map<u64, u32>;

    closed spec fn view(&self) -> Map<u64, u32> {
        self.shares@
    }
}

impl Default for Shares {
    fn default() -> (s: Shares)
        ensures
            s@ == Map::<u64, u32>::empty(),
    {
        Shares { shares: HashMap::new() }
    }
}

impl Shares {
    /// A table without entries: every child has a share of one.
    pub fn new() -> (s: Shares)
        ensures
            s@ == Map::<u64, u32>::empty(),
    {
        Shares { shares: HashMap::new() }
    }

    /// The weight of a child.
    pub fn get(&self, id: TileId) -> (w: u32)
        ensures
            w == weight_of(self@, id),
    {
        match self.shares.get(&id.0) {
            Some(w) => *w,
            None => ONE_SHARE,
        }
    }

    /// Gives a child the weight `weight`.
    pub fn set(&mut self, id: TileId, weight: u32)
        ensures
            final(self)@ == old(self)@.insert(id.0, weight),
    {
        self.shares.insert(id.0, weight);
    }

    /// Whether the child has an entry of its own.
    pub fn contains(&self, id: TileId) -> (b: bool)
        ensures
            b == self@.contains_key(id.0),
    {
        self.shares.contains_key(&id.0)
    }

    /// Moves the weight of `remove`, where it has an entry, to `new`.
    pub fn replace_with(&mut self, remove: TileId, new: TileId)
        ensures
            final(self)@ == replaced(old(self)@, remove, new),
    {
        if let Some(share) = self.shares.remove(&remove.0) {
            self.shares.insert(new.0, share);
        }
    }

    /// Splits the given extent among the children in proportion to their
    /// weights, and leaves nothing of it over: every child gets its exact
    /// share to within a point. Children whose weights add up to nothing
    /// get equal shares.
    pub fn split(&self, children: &[TileId], available_width: u32) -> (widths: Vec<u32>)
        ensures
            widths@.len() == children@.len(),
            forall|i: int|
                0 <= i < children@.len() ==> widths@[i] as nat == split_extents(
                    weights_of(self@, children@),
                    available_width as nat,
                )[i],
            children@.len() > 0 ==> total(
                split_extents(weights_of(self@, children@), available_width as nat),
            ) == available_width,
            forall|i: int|
                0 <= i < children@.len() ==> near_share(
                    weights_of(self@, children@),
                    available_width as nat,
                    i,
                ),
    {
        let n = children.len();
        let ghost ws = weights_of(self@, children@);
        let ghost room = available_width as nat;
        let mut num_shares: u128 = 0;
        let mut i: usize = 0;
        while i < n
            invariant
                i <= n,
                n == children@.len(),
                ws == weights_of(self@, children@),
                num_shares == total(ws.take(i as int)),
                num_shares <= i * 0xffff_ffff,
            decreases n - i,
        {
            let w = self.get(children[i]);
            proof {
                lemma_total_prefix(ws, i as int);
                assert((i + 1) * 0xffff_ffff == i * 0xffff_ffff + 0xffff_ffff) by (nonlinear_arith);
            }
            num_shares = num_shares + w as u128;
            i += 1;
        }
        let even: bool = num_shares == 0;
        let sum: u128 = if even {
            n as u128
        } else {
            num_shares
        };
        let ghost e = effective(ws);
        proof {
            assert(ws.take(n as int) =~= ws);
            lemma_effective_total(ws);
            assert(sum == total(e));
            assert forall|k: int| 0 <= k < n implies near_share(ws, room, k) by {
                lemma_split_near(ws, room, k);
            }
            if n > 0 {
                lemma_split_fills(ws, room);
            }
            assert(e.take(0).len() == 0);
            assert(room * 0 == 0) by (nonlinear_arith);
            assert(available_width * sum <= 0xffff_ffff * (0xffff_ffff_ffff_ffff * 0xffff_ffff))
                by (nonlinear_arith)
                requires
                    available_width <= 0xffff_ffff,
                    sum <= n * 0xffff_ffff,
                    n <= 0xffff_ffff_ffff_ffff,
            ;
        }
        let mut widths: Vec<u32> = Vec::new();
        let mut before: u128 = 0;
        let mut from: u128 = 0;
        let mut j: usize = 0;
        while j < n
            invariant
                j <= n,
                n == children@.len(),
                ws == weights_of(self@, children@),
                e == effective(ws),
                e.len() == n,
                room == available_width,
                even == (total(ws) == 0),
                sum == total(e),
                n > 0 ==> sum > 0,
                available_width * sum <= 0xffff_ffff * (0xffff_ffff_ffff_ffff * 0xffff_ffff),
                before == total(e.take(j as int)),
                from == split_mark(ws, room, j as int),
                widths@.len() == j,
                forall|i: int| 0 <= i < j ==> widths@[i] as nat == split_extents(ws, room)[i],
            decreases n - j,
        {
            let w = self.get(children[j]);
            let weight: u128 = if even {
                1
            } else {
                w as u128
            };
            proof {
                assert(ws[j as int] == w);
                assert(e[j as int] == weight);
                lemma_total_prefix(e, j as int);
                lemma_total_take_le(e, j + 1);
                lemma_split_marks(ws, room, j as int);
                assert(available_width * (before + weight) <= available_width * sum)
                    by (nonlinear_arith)
                    requires
                        before + weight <= sum,
                ;
            }
            before = before + weight;
            let to: u128 = available_width as u128 * before / sum;
            widths.push((to - from) as u32);
            from = to;
            j += 1;
        }
        widths
    }

    /// The sum of all weights in the table. A child without an entry of its
    /// own does not count.
    pub fn sum(&self) -> (sum: u128)
        ensures
            sum == table_total(self@),
    {
        let keys = keys_of(&self.shares);
        let mut sum: u128 = 0;
        let mut i: usize = 0;
        let ghost mut rest = self.shares@;
        while i < keys.len()
            invariant
                i <= keys@.len(),
                keys@.no_duplicates(),
                rest.dom().finite(),
                rest.submap_of(self.shares@),
                forall|j: int| i <= j < keys@.len() ==> rest.contains_key(keys@[j]),
                forall|k: u64| rest.contains_key(k) ==> exists|j: int|
                    i <= j < keys@.len() && keys@[j] == k,
                sum + table_total(rest) == table_total(self.shares@),
                sum <= i * 0xffff_ffff,
            decreases keys@.len() - i,
        {
            let k = keys[i];
            let w = match self.shares.get(&k) {
                Some(w) => *w,
                None => 0,
            };
            proof {
                lemma_table_total_remove(rest, k);
                assert((i + 1) * 0xffff_ffff == i * 0xffff_ffff + 0xffff_ffff) by (nonlinear_arith);
                let smaller = rest.remove(k);
                assert(smaller.submap_of(self.shares@)) by {
                    assert forall|key: u64| smaller.contains_key(key) implies #[trigger]
                        self.shares@.contains_key(key) && smaller[key] == self.shares@[key] by {
                        assert(rest.contains_key(key));
                    }
                }
                assert forall|key: u64| smaller.contains_key(key) implies exists|j: int|
                    i + 1 <= j < keys@.len() && keys@[j] == key by {
                    let j = choose|j: int| i <= j < keys@.len() && keys@[j] == key;
                    assert(j != i);
                }
                rest = smaller;
            }
            sum = sum + w as u128;
            i += 1;
        }
        proof {
            assert(rest.dom() =~= Set::empty());
        }
        sum
    }

    /// The entries of the table, each child with its weight, in no particular order.
    pub fn entries(&self) -> (entries: Vec<(TileId, u32)>)
        ensures
            entries@.len() == self@.dom().len(),
            forall|i: int|
                0 <= i < entries@.len() ==> self@.contains_key(#[trigger] entries@[i].0.0)
                    && self@[entries@[i].0.0] == entries@[i].1,
            forall|k: u64|
                self@.contains_key(k) ==> exists|i: int|
                    0 <= i < entries@.len() && #[trigger] entries@[i].0 == TileId(k),
    {
        let keys = keys_of(&self.shares);
        proof {
            keys@.unique_seq_to_set();
        }
        let mut entries: Vec<(TileId, u32)> = Vec::new();
        let mut i: usize = 0;
        while i < keys.len()
            invariant
                i <= keys@.len(),
                keys@.to_set() == self.shares@.dom(),
                entries@.len() == i,
                forall|j: int|
                    0 <= j < i ==> entries@[j].0 == TileId(keys@[j]) && self.shares@.contains_key(
                        keys@[j],
                    ) && self.shares@[keys@[j]] == entries@[j].1,
            decreases keys@.len() - i,
        {
            let k = keys[i];
            assert(keys@.to_set().contains(keys@[i as int]));
            let w = match self.shares.get(&k) {
                Some(w) => *w,
                None => 0,
            };
            entries.push((TileId(k), w));
            i += 1;
        }
        proof {
            assert forall|k: u64| self@.contains_key(k) implies exists|i: int|
                0 <= i < entries@.len() && #[trigger] entries@[i].0 == TileId(k) by {
                assert(keys@.to_set().contains(k));
                let j = choose|j: int| 0 <= j < keys@.len() && keys@[j] == k;
                assert(entries@[j].0 == TileId(k));
            }
        }
        entries
    }

    /// Keeps the entries of the children that `keep` accepts and drops the others.
    pub fn retain<F: Fn(TileId) -> bool>(&mut self, keep: F)
        requires
            forall|id: TileId| keep.requires((id,)),
        ensures
            final(self)@.submap_of(old(self)@),
            forall|k: u64| #[trigger]
                old(self)@.contains_key(k) ==> keep.ensures(
                    (TileId(k),),
                    final(self)@.contains_key(k),
                ),
    {
        let keys = keys_of(&self.shares);
        let ghost before = self.shares@;
        let mut i: usize = 0;
        while i < keys.len()
            invariant
                i <= keys@.len(),
                keys@.no_duplicates(),
                keys@.to_set() == before.dom(),
                forall|id: TileId| keep.requires((id,)),
                self.shares@.submap_of(before),
                forall|j: int| i <= j < keys@.len() ==> self.shares@.contains_key(keys@[j]),
                forall|j: int|
                    0 <= j < i ==> keep.ensures(
                        (TileId(keys@[j]),),
                        self.shares@.contains_key(keys@[j]),
                    ),
            decreases keys@.len() - i,
        {
            let k = keys[i];
            let kept = keep(TileId(k));
            if !kept {
                self.shares.remove(&k);
            }
            i += 1;
        }
        assert forall|k: u64| #[trigger] before.contains_key(k) implies keep.ensures(
            (TileId(k),),
            self.shares@.contains_key(k),
        ) by {
            assert(keys@.to_set().contains(k));
            let j = choose|j: int| 0 <= j < keys@.len() && keys@[j] == k;
            assert(keys@[j] == k);
        }
    }

    /// Drops the entries of all tiles but the given children.
    pub fn retain_children(&mut self, children: &[TileId])
        ensures
            final(self)@ == old(self)@.restrict(id_set(children@)),
    {
        let mut child_set: HashSet<u64> = HashSet::new();
        let mut i: usize = 0;
        while i < children.len()
            invariant
                i <= children@.len(),
                child_set@ == id_set(children@.take(i as int)),
            decreases children@.len() - i,
        {
            let ghost before = child_set@;
            child_set.insert(children[i].0);
            proof {
                let a = children@.take(i as int);
                let b = children@.take(i + 1);
                assert(b =~= a.push(children@[i as int]));
                assert forall|k: u64| id_set(b).contains(k) <==> before.insert(
                    children@[i as int].0,
                ).contains(k) by {
                    if id_set(b).contains(k) {
                        let j = choose|j: int| 0 <= j < b.len() && b[j] == TileId(k);
                        if j < i {
                            assert(a[j] == TileId(k));
                        }
                    }
                    if before.contains(k) {
                        let j = choose|j: int| 0 <= j < a.len() && a[j] == TileId(k);
                        assert(b[j] == TileId(k));
                    }
                    if k == children@[i as int].0 {
                        assert(b[i as int] == TileId(k));
                    }
                }
                assert(child_set@ =~= id_set(b));
            }
            i += 1;
        }
        proof {
            assert(children@.take(children@.len() as int) =~= children@);
        }
        let ghost before = self@;
        let ghost wanted = id_set(children@);
        let keep = |id: TileId| -> (b: bool)
            ensures
                b == child_set@.contains(id.0),
            { child_set.contains(&id.0) };
        self.retain(keep);
        assert forall|k: u64| self@.contains_key(k) <==> (before.contains_key(k)
            && wanted.contains(k)) by {
            if before.contains_key(k) {
                assert(keep.ensures((TileId(k),), self@.contains_key(k)));
                assert(children@.contains(TileId(k)) <==> wanted.contains(k));
            }
        }
        assert(self@ =~= before.restrict(wanted));
    }
}

} // verus!
