//! Sources whose rows are converted from what another source gives.

pub mod gzip;

pub mod lines;

pub mod source;
