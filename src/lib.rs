//! An Eisenhower-matrix task list: items sorted into important/urgent
//! quadrants, kept in an embedded SQLite table with soft delete and restore.
//!
//! The verified core is the item repository (`repo`) over its table
//! (`storage`), the record format items are stored in (`codec`), the
//! quadrant classifier and other page models (`views`), and the interval of
//! the recurring maintenance script (`schedule`).
pub mod codec;
pub mod error;
pub mod item;
pub mod markdown;
pub mod repo;
pub mod schedule;
pub mod storage;
mod text;
pub mod views;

pub use error::RepoError;
pub use item::{Item, ItemView, Timestamp};
pub use markdown::md;
pub use repo::Repo;
pub use views::{DeletedItems, ItemsList, NewItem, Quadrant};
