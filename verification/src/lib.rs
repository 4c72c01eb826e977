//! Core logic of the lindirstat disk-usage visualiser: the wire framing shared
//! by scanner and client, the in-memory tree built from the entry stream, and
//! the text and ordering rules used by the front ends.

pub mod agent;
pub mod build_tools;
pub mod connect;
pub mod human;
pub mod model;
pub mod order;
pub mod palette;
pub mod remote;
pub mod session;
pub mod shell;
pub mod text;
pub mod tree_laws;
pub mod wire;
