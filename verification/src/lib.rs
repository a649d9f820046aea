//! The routing-decision core of a traffic-dispatching proxy: a domain trie
//! over reversed hostname labels with wildcard-aware, specificity-first
//! matching, and a registry of per-channel liveness and latency telemetry.
pub mod proxy_manager;
pub mod trie;
