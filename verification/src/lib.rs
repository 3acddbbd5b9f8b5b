//! A decentralized cluster-membership engine in the SWIM style.
//!
//! Each agent keeps a table of known members (alive, suspect, or dead),
//! probes a random peer on every tick, and piggybacks membership updates
//! onto the probe traffic so the cluster converges on a shared view
//! without a central coordinator.
//!
//! This crate holds the verified core: the wire codec, the membership
//! table with its incarnation tie-break rule, the failure-detector and
//! dissemination state machines, and the coordinator's dispatch logic.
//! Socket I/O, timers and signal handling live in the surrounding
//! (unverified) binary, which feeds events into [`SerfClient`] and
//! carries its outgoing messages to the network.

pub mod builder;
pub mod engine;
pub mod gossip;
pub mod member;
pub mod table;
pub mod wire;

pub use builder::SerfMemberBuilder;
pub use engine::SerfClient;
pub use member::SerfMember;
pub use member::SerfStatus;
pub use table::SerfState;
