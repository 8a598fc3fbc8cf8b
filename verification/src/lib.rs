//! Verified core of a TCP broker that splits an upstream AIS/NMEA feed into
//! lines and distributes them across downstream consumers.
pub mod config;
pub mod buffers;
pub mod framing;
pub mod multipart;
pub mod message;
pub mod queue;
pub mod decimal;
pub mod dispatcher;
pub mod upstream;
pub mod http;
