//! A replicated, eventually consistent store of content-addressed values.
//!
//! Clients push values to a replica, which keeps each under its fingerprint,
//! a sixty-four-bit hash of the value. Replicas gossip: each tells its peers
//! how much it knows, and is told what it lacks, so that in the end every
//! replica holds every value. A replica appends what it takes up to a commit
//! log and writes snapshots of its store, and is brought back from both.
//!
//! This crate holds the rules of that system and no input or output: what a
//! message does to the state of a replica ([`replica`], [`gossip`]), how a
//! message is framed ([`messages`]), how the log and the snapshots are laid
//! out and read ([`log`], [`snapshot`], [`recovery`]), how replicas are named
//! ([`address`]), and the client's side of the protocol ([`client`]). The
//! program around it owns the sockets, the files, the threads and the clock.
//!
//! A replica is one value, changed through an exclusive reference. A program
//! that serves several connections at once keeps it behind a lock and holds
//! the lock for one step at a time.

pub mod address;
pub mod client;
pub mod convergence;
pub mod gossip;
pub mod hashing;
pub mod laws;
pub mod log;
pub mod map;
pub mod messages;
pub mod recovery;
pub mod replica;
pub mod snapshot;
pub mod text;
