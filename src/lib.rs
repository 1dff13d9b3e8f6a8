//! Streaming, size-bounded, gzip-compressed transfer of record sequences,
//! together with the small pieces of the agent around it (action dispatch and
//! operating system facts).

pub mod action;
pub mod frame;
pub mod gzip;
pub mod join;
pub mod os;
pub mod gzchunked;
