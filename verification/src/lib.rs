//! Verified core of a Kubernetes-aware DNS server: a label trie, block/allow
//! list matching, list parsing, and the record bookkeeping and lookup
//! decisions for Kubernetes services and `DnsRecord` resources.
pub mod args;
pub mod blocker;
pub mod keyed;
pub mod kubernetes;
pub mod names;
pub mod settings;
pub mod text;
pub mod trie;
pub mod utils;
