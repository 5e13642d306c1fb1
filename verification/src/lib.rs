//! A recursive tiling layout engine: a tree of resizable containers holding
//! panes, with weighted space allocation, interactive resizing, drag-and-drop
//! re-parenting and tree simplification.

pub mod active;
pub mod collapse;
pub mod container;
pub mod drop_context;
pub mod gc;
pub mod geometry;
pub mod idempotence;
pub mod layout;
pub mod simplification;
pub mod simplify;
pub mod tile_id;
pub mod tiles;
pub mod tree;
pub mod tree_shape;
pub mod wrap;

pub use container::{
    Container, ContainerKind, ContainerView, Grid, Linear, LinearDir, Shares, Tabs,
};
pub use geometry::{Pos, Rect, Rects};
pub use simplification::{SimplificationOptions, SimplifyAction};
pub use tile_id::TileId;
pub use tiles::{Tile, TileView, Tiles};
pub use drop_context::{ContainerInsertion, DropContext, InsertionPoint};
pub use tree::Tree;
