//! Forwarding core of a content-centric overlay node.
//!
//! Peers exchange hashed content addresses and payload replies over several
//! independent links. For every arriving packet the node decides whether to
//! answer from its reply cache, to forward the request towards better peers,
//! or to relay a reply to the links that wait for it.
//!
//! The heart of the crate is the forwarding engine in [`router`], with the
//! state it works on: content addresses ([`address`]) and their encoding
//! ([`codec`]), links and packets ([`link`], [`packet`]), the interest state
//! of every link ([`bloom_filter`], [`link_table`]), the link classifier
//! ([`bayes`]) and the threat check ([`threat`]). What the engine guarantees
//! is proved in [`guarantees`].
//!
//! Around it stand the echo service ([`echo`]), the check of the log of a
//! running network ([`operations`]), and the matching of named interests
//! over a sparse bit vector ([`faces`], [`sparse_distributed_routing`]).
//!
//! The crate decides and computes. Link transports, the durable store and
//! the outbound queue stay with the caller.
pub mod address;
pub mod bayes;
pub mod bloom_filter;
pub mod codec;
pub mod echo;
pub mod faces;
pub mod guarantees;
pub mod keyed;
pub mod link;
pub mod link_table;
pub mod operations;
pub mod packet;
pub mod router;
pub mod sparse_distributed_routing;
pub mod threat;
