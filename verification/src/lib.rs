//! Pin-out tables for microcontrollers, from a vendor's descriptor database.
//!
//! A part is described by two gzip-compressed XML documents: its own
//! descriptor, which lists its pins and their signals, and the descriptor of
//! its GPIO block, which says how each signal is mapped to a pin. `db` builds
//! the part from the two, `table` lays it out as a table with one row for
//! each pin.

pub mod af_layout;
pub mod db;
pub mod error;
pub mod factor;
pub mod gpio;
pub mod pattern;
pub mod remap_layout;
pub mod scan;
pub mod table;
pub mod text;
pub mod xml;
