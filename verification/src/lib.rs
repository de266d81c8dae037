//! Castle Lanes: the replicated match state, its wire framing, per-viewer
//! filtering, snapshot deltas, match recording and the combat cues a client
//! reads off successive snapshots.
pub mod model;
pub mod wire;
pub mod keyed;
pub mod delta;
pub mod chunking;
pub mod visibility;
pub mod record;
pub mod packets;
pub mod view;
pub mod models;
pub mod names;
pub mod sessions;
pub mod client_sync;
pub mod combat;
