//! Client-side engine of a secret store: a shared byte cache holding every
//! record chain, a vault manager enforcing a checkout/checkin discipline over
//! per-vault views, a client facade bound to one owner, a snapshot codec, and
//! a message handler that hosts the manager as a service.

pub mod blob;
pub mod cache;
pub mod client;
pub mod compare;
pub mod error;
pub mod ids;
pub mod listener;
pub mod order;
pub mod provider;
pub mod service;
pub mod snap;
