//! Recover certificates for every position in a fixed per-epoch range.
//!
//! Each [`engine::Engine`] has one immutable epoch and inclusive global position range. It requests
//! the digest of every position in that range, keeps a bounded window anchored at the lowest
//! uncertified position, and ends only after the entire range is certified. A durable identity
//! header prevents a journal from being replayed under different configuration.
//!
//! An engine decides. It is told what happens, as an [`event::Event`], and answers with what is to be
//! done, as a list of [`action::Action`]s. Networking, storage and signing are left to its
//! surroundings: what a signing scheme computes comes in through functions that are handed over
//! with the event.
//!
//! Beside the engine stand the scheduling of certificate recovery ([`recovery`]) and the rules of
//! the store that answers what digest was finalized at a height ([`checkpoints`]).
//!
//! The model of each part is a mathematical value, its view, and each operation is specified as a
//! function on views. What each event is for is stated in [`event_laws`] and [`window_laws`], what
//! holds of the whole in [`laws`], [`restart`], [`replay_laws`] and [`recovery_laws`], and what holds
//! of the smaller parts next to them. That views leave nothing out is stated in [`view_laws`].

pub mod action;
pub mod bigendian;
pub mod checkpoints;
pub mod committee;
pub mod config;
pub mod deadlines;
pub mod engine;
pub mod event;
pub mod event_laws;
pub mod faults;
pub mod header;
pub mod journal;
pub mod laws;
pub mod model;
pub mod overflow;
pub mod recovery;
pub mod recovery_laws;
pub mod replay_laws;
pub mod restart;
pub mod shares;
pub mod turns;
pub mod types;
pub mod varint;
pub mod view_laws;
pub mod window_laws;
