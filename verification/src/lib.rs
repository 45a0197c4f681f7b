//! Byte-range locks for files: an ordered interval map and, on top of it, a
//! lock table that grants and releases shared and exclusive locks on
//! half-open byte intervals.

pub mod laws;
pub mod lock;
pub mod locks;
pub mod range;
pub mod table;
pub mod vector_map;
