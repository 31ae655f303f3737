//! Relay for DNS-01 challenge records: a record store with age-based
//! eviction, the credential check, and the zone text that is published.

pub mod auth;
pub mod notify;
pub mod store;
pub mod time;
pub mod zone;

pub use auth::{check_claims, verify, Claims, Verdict};
pub use notify::WakeSignal;
pub use store::{Record, RecordStore, StoreMap};
pub use time::{parse_seconds, parse_u64, Duration, Instant, IntErrorKind};
pub use zone::{render_zone, ZoneWriter};
