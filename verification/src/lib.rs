//! URDF robot-description parsing: the XML tree is read into links and joints,
//! joints are ordered depth-first from the root link, and name lookups are built.
//! Everything that needs floating-point arithmetic (number parsing, rigid-body
//! transforms, forward kinematics) lives outside this crate's verified core.

pub mod error;
pub mod kinematics;
pub mod laws;
pub mod parser;
pub mod reading;
pub mod tree;
pub mod types;
pub mod utils;
pub mod xml;
