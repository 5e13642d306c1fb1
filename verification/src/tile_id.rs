use vstd::prelude::*;

verus! {

/// An identifier for a tile (a pane or a container) of one tree.
///
/// Two identifiers are the same tile exactly when their numbers are equal.
#[derive(Clone, Copy, Debug, PartialEq, Eq, Structural, PartialOrd, Ord, Hash)]
pub struct TileId(pub u64);

impl TileId {
    /// The identifier with the given number.
    pub fn from_u64(n: u64) -> (id: TileId)
        ensures
            id == TileId(n),
    {
        TileId(n)
    }

    /// The number behind the identifier.
    pub fn as_u64(&self) -> (n: u64)
        ensures
            n == self.0,
    {
        self.0
    }
}

} // verus!
