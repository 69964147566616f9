//! The decision logic of a small walking robot: its control protocol and
//! command routing, its safety gate, its Bluetooth pad handling, and the
//! deciding side of its mapping and localisation stack.
//!
//! Everything in this crate is plain computation on plain values. Sensor
//! arithmetic, sockets, files and clocks live with the callers.

pub mod accumulator;
pub mod bench;
pub mod central;
pub mod code;
pub mod follower;
pub mod global_render;
pub mod grid;
pub mod heap;
pub mod ieee;
pub mod io;
pub mod line;
pub mod loop_closer;
pub mod mapper;
pub mod mcl;
pub mod method;
pub mod model;
pub mod optimizer;
pub mod pad;
pub mod padfallback;
pub mod pads;
pub mod picture;
pub mod pipeline;
pub mod planner;
pub mod policy;
pub mod pose_graph;
pub mod proto;
pub mod protocol;
pub mod record;
pub mod relocalize;
pub mod replay;
pub mod rng;
pub mod route;
pub mod safety;
pub mod scan_matcher;
pub mod search;
pub mod sorting;
pub mod span;
pub mod submap;
pub mod submap_manager;
pub mod text;
