//! A verified pipeline that turns textual note-event records into a raster
//! image: each line of input describes one event (channel, timestamp, note),
//! valid events are collected in order, their timestamp range is normalized,
//! and every event becomes one pixel, positioned by time and note and colored
//! by channel.

pub mod event;
pub mod finalize;
pub mod ingest;
pub mod range;
pub mod raster;
