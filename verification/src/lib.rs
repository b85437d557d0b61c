//! Bonding of several uplinks: an encrypted multipath relay, direct connections,
//! and the advice that guides both.
pub mod ack_laws;
pub mod admission;
pub mod binary64;
pub mod binary64_approx;
pub mod binary64_laws;
pub mod binary64_size;
pub mod bond;
pub mod bond_client;
pub mod bond_laws;
pub mod brain;
pub mod brain_laws;
pub mod brain_rate_laws;
pub mod brain_share_laws;
pub mod channel;
pub mod crypto;
pub mod decision_laws;
pub mod direct;
pub mod echo;
pub mod egress;
pub mod envelope;
pub mod flight;
pub mod flow;
pub mod frame;
pub mod greeting;
pub mod intake;
pub mod lab;
pub mod link;
pub mod link_choice_laws;
pub mod link_laws;
pub mod meter_laws;
pub mod names;
pub mod noise;
pub mod packet;
pub mod path;
pub mod path_laws;
pub mod payload_meter;
pub mod placement;
pub mod plan;
pub mod plan_laws;
pub mod protection_laws;
pub mod recovery;
pub mod relay;
pub mod reorder;
pub mod repair;
pub mod replay;
pub mod report_laws;
pub mod route;
pub mod runtime;
pub mod sender;
pub mod socks;
pub mod table;
pub mod target_laws;
pub mod tcp_metrics;
pub mod timing_laws;
pub mod transfer_laws;
pub mod tunnel;
pub mod tunnel_client;
pub mod tunnel_server;
pub mod turn;
pub mod turn_frames;
pub mod turn_laws;
pub mod turn_numbers;
pub mod udp_lane;
pub mod udp_reassembly;
pub mod upkeep_laws;
pub mod uplink_laws;
pub mod web;
pub mod wire;
