//! Compacts large domain blocklists into a minimal covering set.
//!
//! The library contains the hierarchical domain-deduplication engine that
//! decides, for each candidate domain, whether it is redundant (covered by an
//! already-blocked ancestor), whitelisted, or newly blocked; a hand-rolled DNS
//! wire-protocol codec used to resolve whitelist CNAMEs; renderers for the
//! plain and BIND zone-file output formats; and the per-line transform of the
//! query-log streaming filter.

pub mod cli;
pub mod dns_codec;
pub mod filter;
pub mod index;
pub mod output;
pub mod statistics;
pub mod sub_domains;
