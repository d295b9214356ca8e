//! Encoding of measurements into the text line protocol of a time-series
//! database, and the checks made before a line is sent.

pub mod error;
pub mod laws;
pub mod line_tcp_sender;
pub mod numeral;
pub mod questdb_line_protocol;
