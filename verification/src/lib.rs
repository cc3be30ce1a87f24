//! A minimal persistent stack kept in an ordered byte-indexed key-value
//! store. Each entry occupies one single-byte key; the top of the stack is
//! the entry with the greatest key. Push allocates the key one past the
//! current maximum, pop removes the greatest key, and the read-only queries
//! (count, sum, list) traverse the stored key range.

pub mod codec;
pub mod contract;
pub mod laws;
pub mod model;
pub mod store;
