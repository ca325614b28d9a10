//! Streaming cache and level-of-detail selection for large tiled terrains.
//!
//! A terrain is cut into square tiles ("nodes") at several levels of detail.
//! Only the nodes near a viewer are kept resident, each in one slot of a
//! bounded atlas. The modules, leaf first:
//!
//! - [`node_id`]: the packed 32-bit key of a node and its coordinate.
//! - [`node_atlas`]: the bounded cache that maps nodes to atlas slots.
//! - [`selection`]: which nodes a viewer requires at a position.
//! - [`partition`]: the required set cuts what the viewer sees into tiles
//!   without gap and without overlap.
//! - [`quadtree`]: the state of one view, its change from update to update,
//!   and the best loaded node at a location.
//! - [`streaming`]: one update cycle of a view on the atlas.
//! - [`attachment_loader`]: the loads of the attachments of new nodes.
//! - [`pipeline_key`]: the key of a variant of the render pipeline.

pub mod attachment_loader;
pub mod node_atlas;
pub mod node_id;
pub mod partition;
pub mod pipeline_key;
pub mod quadtree;
pub mod selection;
pub mod streaming;
