//! Statistics over the subscriptions that a podcast fetcher keeps in its
//! MessagePack cache.

pub mod msgpack;
pub mod subscription;
pub mod ranking;
pub mod config;
pub mod util;
