//! The passive core of a Highway consensus instance, and the layer that
//! feeds a protocol state with items in the order of their dependencies.
//!
//! A [`state::State`] ingests signed votes from a fixed, weighted set of
//! validators, keeps the panorama of their latest behaviour, records
//! evidence against equivocators and answers the fork-choice query.  A
//! [`synchronizer::Synchronizer`] holds back the items that a protocol
//! state cannot take yet and asks the peers for what they depend on.
//! Everything here is a deterministic in-memory state machine; signing,
//! transport, timers and storage belong to the embedder.
//!
//! The contracts speak of mathematical models: [`model::StateView`] is the
//! model of a protocol state, [`laws`] and [`fork_choice`] state what holds
//! of every well-formed state, and [`codec`] that the canonical bytes of a
//! vote and their reader are inverse to one another.

pub mod block;
pub mod codec;
pub mod consensus;
pub mod dep_spec;
pub mod evidence;
pub mod fork_choice;
pub mod laws;
pub mod lemmas;
pub mod model;
pub mod pothole;
pub mod state;
pub mod synchronizer;
pub mod tallies;
pub mod traits;
pub mod validators;
pub mod vertex;
pub mod vote;
pub mod weight;
