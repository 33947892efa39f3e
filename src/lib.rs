//! Native value types of a dynamic object model: an arithmetic range, a typed
//! numeric array with an export guard, and the registry that collects what a
//! class installs (attributes, slots, property descriptors).

pub mod slice;
pub mod range;
pub mod codec;
pub mod array;
pub mod registry;
