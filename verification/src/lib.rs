//! A generational object store: values live in dense rows, are named by
//! `(generation, index)` keys, and keys of removed values never become valid
//! again.

mod atomics;
pub mod defer;
pub mod fork;
pub mod insert;
pub mod key;
pub mod laws;
pub mod model;
pub mod read;
pub mod remove;
mod shared;
pub mod store;
pub mod table;
pub mod utility;
pub mod write;

pub use defer::Defer;
pub use fork::{Access, Fork};
pub use insert::Inserts;
pub use key::{Key, Keys, Slot};
pub use read::Read;
pub use remove::Removes;
pub use store::Armoire;
pub use write::Write;
