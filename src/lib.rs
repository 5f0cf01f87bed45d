//! Building a Master Boot Record from declarative partition constraints:
//! constraint resolution into a concrete layout, field budget validation, and
//! encoding of the 512-byte sector.
pub mod model;
pub mod builder;
pub mod resolve;
pub mod sector;
