//! Verified core of a live-coding audio engine: plugin load ordering,
//! plugin requirement parsing, OSC event dispatch and the audio command channel.

pub mod text;
pub mod requirements;
pub mod load_order;
pub mod load_order_laws;

pub mod commands;
pub mod command_queue;
pub mod osc;
pub mod scripts;
pub mod reports;
