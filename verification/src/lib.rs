//! Verified core of two programs that share a repository: the delivery worker
//! of a newsletter service, and the combat and tooltip rules of a small
//! dungeon crawler.
//!
//! The delivery worker fans a published issue out to every confirmed
//! subscriber through a queue of pending deliveries:
//!
//! - [`domain`] holds the values it deals in;
//! - [`store_model`] describes the store as a mathematical state and the
//!   transitions its operations make;
//! - [`delivery_store`] is the store itself: publication, the queue, and the
//!   log of failed attempts;
//! - [`retry_policy`] says how often and how soon a delivery is retried;
//! - [`issue_delivery_worker`] is the executor that makes one delivery
//!   attempt per pass, and the drain that runs passes until no work is left;
//! - [`worker_loop`] decides what the background loop does next;
//! - [`guarantees`] and [`concurrent_workers`] prove what publication and
//!   delivery promise, the latter for any number of executors at once.
//!
//! The game rules live in [`systems`], over the plain values of [`camera`]
//! and [`turn_state`].

pub mod camera;
pub mod concurrent_workers;
pub mod delivery_store;
pub mod domain;
pub mod guarantees;
pub mod issue_delivery_worker;
pub mod retry_policy;
pub mod seq_search;
pub mod store_model;
pub mod systems;
pub mod turn_state;
pub mod worker_loop;
