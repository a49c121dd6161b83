//! Extraction of DSMR telegrams from a chunked byte stream, as produced by a
//! Homey Energy Dongle.
pub mod discover;
pub mod framing;
pub mod reader;
pub mod websocket;
