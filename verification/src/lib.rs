//! Core of a gossip-coordinated peer node: stake-weighted committee
//! election over a shared network view, a message protocol with
//! idempotent apply/distribute semantics, connection registries, the
//! wall-clock round scheduler, and the encrypted transport glue.

use vstd::prelude::*;

pub mod codec;
pub mod config;
pub mod dto;
pub mod handshake;
pub mod interpreter;
pub mod logger;
pub mod network;
pub mod order;
pub mod queues;
pub mod registry;
pub mod synchronizer;
