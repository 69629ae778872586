//! Nodus: the routing, naming, wire-format and bookkeeping logic of a
//! node-based virtual audio router, with its contracts proved by Verus.

pub mod bridge;
pub mod bus;
pub mod device_control;
pub mod devices;
pub mod endpoint_name;
pub mod engine;
pub mod glitch;
pub mod graph;
pub mod icon;
pub mod logging;
pub mod pcm;
pub mod process;
pub mod ring;
pub mod rpc;
pub mod scene;
pub mod session;
pub mod settings;
pub mod text;
pub mod utf16;
pub mod virtual_device;
pub mod wasapi;
pub mod wire;
