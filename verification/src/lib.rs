//! A small replicated database node: the RESP2 client protocol, the Raft
//! consensus core with its wire codec, and the rules by which a node host
//! admits commands, checks its data directory and archives its state.
#![allow(dead_code)]
#![allow(unused_imports)]

pub mod backup;
pub mod boot;
pub mod boot_laws;
pub mod cli;
pub mod check_laws;
pub mod cli_laws;
pub mod client;
pub mod client_laws;
pub mod codec;
pub mod codec_laws;
pub mod command;
pub mod command_laws;
pub mod config;
pub mod config_laws;
pub mod config_text;
pub mod crc;
pub mod envelope;
pub mod fault;
pub mod files;
pub mod files_laws;
pub mod hex;
pub mod host;
pub mod host_laws;
pub mod identity;
pub mod ids;
pub mod join;
pub mod join_laws;
pub mod kv;
pub mod legacy;
pub mod lifecycle_laws;
pub mod membership;
pub mod membership_laws;
pub mod metrics;
pub mod model;
pub mod model_bounds;
pub mod model_safety;
pub mod model_steps;
pub mod node_map;
pub mod node_set;
pub mod paths;
pub mod peers;
pub mod prose;
pub mod raft_agreement;
pub mod raft_durable;
pub mod raft_election;
pub mod raft_laws;
pub mod raft_leadership;
pub mod raft_logs;
pub mod raft_membership;
pub mod raft_model;
pub mod raft_node;
pub mod raft_progress;
pub mod raft_proposals;
pub mod raft_reads;
pub mod raft_replication;
pub mod raft_safety;
pub mod raft_snapshots;
pub mod raft_types;
pub mod raft_workflow;
pub mod recovery;
pub mod redirect;
pub mod redirect_laws;
pub mod report;
pub mod report_laws;
pub mod resp;
pub mod resp_laws;
pub mod restore;
pub mod restore_laws;
pub mod rng;
pub mod routes;
pub mod routes_laws;
pub mod selfcheck;
pub mod serving;
pub mod status;
pub mod status_laws;
pub mod text;
pub mod traffic_laws;
pub mod wire;
pub mod words;
pub mod work;
