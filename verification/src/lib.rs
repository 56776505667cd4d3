//! Verified core of a federated-aggregation protocol built on RLWE encryption,
//! summation trees and Shamir secret sharing.
pub mod common;
pub mod rlwe;
pub mod committee_offline;
pub mod committee_online;
pub mod server_pit;
pub mod aggregation;
pub mod util;
pub mod back_server;
pub mod keyfile;
pub mod text;
pub mod client;
pub mod zksnark;
pub mod light_client;
