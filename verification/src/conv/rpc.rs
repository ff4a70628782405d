//! Workflows over the select, upsert and checked-drop services.

pub mod mem;

pub mod src2tgt;

pub mod table;
