//! Byte-stream buffering for a reliable, ordered transport: sequence numbers
//! that wrap at 2^32, a set of disjoint sequence ranges, a reassembling
//! receive buffer and a segmenting send buffer.

pub mod range_model;
pub mod range_set;
pub mod recv_buffer;
pub mod recv_model;
pub mod send_buffer;
pub mod send_model;
pub mod seq32;
pub mod store;
