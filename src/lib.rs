//! Object types: named schemas made of typed attributes, some of which form
//! the type's identity, and the serialized, connect-once access layer that
//! stores them as whole documents keyed by name.
pub mod object_type;
pub mod db;
