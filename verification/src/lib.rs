//! In-memory order tracking for table-based ordering: a store that maps
//! tables to sequences of orders with globally unique, never-reused ids,
//! and a request router that validates HTTP-style requests, applies them
//! to the store, and renders JSON responses.

pub mod json;
pub mod laws;
pub mod router;
pub mod shared_data;
pub mod text;
