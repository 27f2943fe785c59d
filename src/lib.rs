//! A caching DNS forwarder: the record cache, CNAME-chain assembly,
//! single-flight coalescing and an upstream pool with sticky failover.
//!
//! - `dns`: names, records, questions and packets, with their models.
//! - `wire`: the DNS wire format, decoded and encoded against a byte-level spec.
//! - `lru`: a bounded store with least-recently-used eviction and sorted prefix scans.
//! - `cache`: the TTL policy, staleness, and the rules on which records may coexist.
//! - `forward`: answering from the cache, following CNAMEs, storing upstream answers,
//!   and the forwarder's steps around an upstream lookup.
//! - `coalesce`: one upstream lookup per question at a time.
//! - `upstream`: the preferred-server pointer and what counts as a usable answer.
//! - `process`: which queries are handled and the walk through rule lists.
//! - `time`: monotonic instants and durations in nanoseconds.

pub mod cache;
pub mod coalesce;
pub mod dns;
pub mod forward;
pub mod lru;
pub mod process;
pub mod time;
pub mod upstream;
pub mod wire;
