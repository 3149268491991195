//! Reading GELF (Graylog Extended Log Format) messages: a JSON tree type, a
//! classifier that validates a message and sorts its fields into mandatory
//! fields, user metadata and passthrough data, and the routing state of a
//! fixed-size pool of workers that classify messages one at a time.

pub mod json;
pub mod gelf;
pub mod pool;
