//! Associative containers shaped for concurrent use — a sharded hash map,
//! a nested hash table, a stack, and a timed write-back cache — together
//! with the pieces they share: a keyed hasher, a flat vector-backed map,
//! and a uniform slot allocator. Every operation is specified against an
//! abstract map or sequence of contents; mutation goes through exclusive
//! borrows, while the API keeps the guard, pin and try-variant surface
//! that shared use calls for.

pub mod key;
pub mod laws;
pub mod vecmap;
pub mod dashmap;
pub mod nestedmap;
pub mod stack;
pub mod timedcache;
pub mod uniform_allocator;
pub mod util;
