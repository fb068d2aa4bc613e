//! The uTP protocol engine: packet handling, LEDBAT congestion control,
//! selective acks, retransmission, and MTU discovery.

pub mod acking;
pub mod acks;
pub mod arrivals;
pub mod binary64;
pub mod context;
pub mod control;
pub mod create;
pub mod deliver;
pub mod delivery;
pub mod dial;
pub mod drift;
pub mod eack;
pub mod expiry;
pub mod extensions;
pub mod flow;
pub mod gauging;
pub mod incoming;
pub mod laws;
pub mod ledbat;
pub mod link;
pub mod measure;
pub mod model;
pub mod mtu;
pub mod opening;
pub mod owing;
pub mod probing;
pub mod progress;
pub mod queue;
pub mod receive;
pub mod recovery;
pub mod reliable;
pub mod retained;
pub mod rtt;
pub mod send;
pub mod sending;
pub mod serving;
pub mod settling;
pub mod slots;
pub mod state;
pub mod stream;
pub mod stream_steps;
pub mod sweep;
pub mod timers;
pub mod timing;
pub mod transmit;
pub mod users;
pub mod waking;
pub mod window;
pub mod write;
