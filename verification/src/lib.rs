//! A single-shot, weighted, Byzantine-fault-tolerant agreement protocol of the
//! Streamlet family, with its state machine verified.
//!
//! Participants exchange three kinds of signed messages: *proposals*, which
//! carry the payload to be decided; *solicits*, which extend a chain by one
//! step and ask for votes; and *votes*. A proposal or solicit is *notarized*
//! once the votes for it carry more than two thirds of all weight, and a
//! proposal is *decided* once a longest notarized chain above it holds three
//! consecutive ticks.
//!
//! - [`bytes32`], [`crypto`], [`wire`]: hashes and keys, and the hash and
//!   signature primitives that are taken on trust.
//! - [`msg`]: the messages.
//! - [`ordered_map`]: the ordered tables that hold them.
//! - [`model`]: the state as a mathematical value, its invariant and what
//!   each operation is to compute.
//! - [`engine`], [`chain`], [`gossip`], [`author`], [`graphviz`]: the engine
//!   and its operations.
//! - [`schedule`], [`decider`]: the leader lottery and the driver that moves
//!   an engine from tick to tick.
//! - [`laws`], [`reconcile`]: what holds of every state, and what a diff
//!   achieves.

pub mod author;
pub mod bytes32;
pub mod chain;
pub mod crypto;
pub mod decider;
pub mod engine;
pub mod gossip;
pub mod graphviz;
pub mod laws;
pub mod model;
pub mod msg;
pub mod ordered_map;
pub mod reconcile;
pub mod schedule;
pub mod wire;

pub use bytes32::{Bytes32, HashVal, PublicKey, SecretKey};
pub use decider::{Decider, DeciderConfig, Driver};
pub use engine::Core;
pub use model::InsertError;
pub use msg::{DiffMessage, Message, Proposal, Solicit, Vote};
pub use ordered_map::OrderedMap;
pub use schedule::{LeaderSchedule, Lottery};
