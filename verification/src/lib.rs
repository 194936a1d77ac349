//! Runtime-independent BitTorrent engine state: streaming demand, upload
//! slot scheduling and multi-peer request ownership.

pub mod streaming;
pub mod upload_scheduler;
pub mod swarm_types;
pub mod storage_join;
pub mod request_window;
pub mod piece_picker;
pub mod swarm;
pub mod session_socket;
pub mod session_udp;
pub mod storage_stage_profile;
pub mod storage_file_pool;
pub mod session_resources;
pub mod tracker;
pub mod upload;
pub mod profile_arguments;
pub mod staging;
pub mod session_ledger;
pub mod udp_fragmentation;
