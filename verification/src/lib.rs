//! Verified sequence containers.
//!
//! `packed_linked_list` holds a packed (unrolled) list: a chain of nodes that
//! each store up to a fixed number of elements, with cursors for navigation
//! and in-place insertion. `linked_list` is the simpler one-element-per-node
//! baseline. Every container is specified against its element sequence.

pub mod linked_list;
pub mod packed_linked_list;
mod seq_facts;
