//! Per-application audio routing and volume-control engine.
//!
//! Applications (process ids) are assigned to one of a small set of logical
//! streams; each stream carries a routed output device and a volume. The
//! engine keeps that logical state consistent, renders it to a durable JSON
//! document and restores it on startup, and computes every decision the
//! surrounding process needs to apply the state to the host audio subsystem:
//! which sessions to touch, which device an identifier resolves to, and which
//! rerouting strategy outcome to report.

pub mod codec;
pub mod devices;
pub mod router;
pub mod sessions;
pub mod state;
pub mod stream;
pub mod text;

pub use devices::{DeviceInfo, DeviceKind};
pub use sessions::AppSession;
pub use state::MixerState;
pub use stream::StreamId;
