//! Live and archived waveforms of SeismiQ sensors.

pub mod text;
pub mod number;
pub mod timestamp;
pub mod cli;
pub mod stream;
pub mod order;
pub mod api;
pub mod devices;
pub mod mseed;
pub mod seedlink;
pub mod text_map;
pub mod waveforms;
pub mod fdsn;
pub mod websocket;
pub mod watch;
pub mod trace;
pub mod tui;
