//! Casserole: break-down serialization of values into a store, which can be a
//! content-addressable database, so that the folded values hold keys in place of
//! the sub-values that were stored.
//!
//! The folded values are small and gain dedup and efficient diffability due to
//! content-addressable references.
pub mod digest;
pub mod encoding;
pub mod ser;
pub mod shape;
pub mod store;
pub mod types;

pub use ser::{casserole_stored, decasserole_stored, Casserole, Encode};
pub use store::Store;
pub use types::map::StoredValuesBTreeMap;
