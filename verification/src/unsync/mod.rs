//! A cache for one thread, whose entries live for a given time.
mod cache;
mod internal;
pub mod model;
mod tick;
pub mod ttl_tracer;
mod value_entry;

pub use cache::UnsyncCache;
pub use internal::{plan, UnsyncCacheInternal};
pub use model::{CacheItem, CacheModel, CleanUp, TickTrace};
pub use tick::Tick;
pub use ttl_tracer::TTLTracer;
pub use value_entry::ValueEntry;
