//! Framing of a marker-delimited byte stream.
//!
//! A stream is a run of segments with nothing between them. Each segment
//! starts with a two-byte marker. Two markers stand alone; every other one is
//! followed by a big-endian 16-bit length, which counts its own two bytes, and
//! by the payload that the length announces.
//!
//! * [`marker`] recognises the two-byte markers.
//! * [`segment`] reads one segment from the front of a buffer.
//! * [`stream`] walks a whole buffer, segment after segment.
//! * [`text`] renders numbers for the error descriptions.

pub mod marker;
pub mod segment;
pub mod stream;
pub mod text;
