//! A read-optimised, single-file object store with persisted B-tree indices.
//!
//! A [`PakBuilder`] collects encoded items and their index entries and lays
//! them out as one byte artifact; a [`Pak`] opens such an artifact and answers
//! equality and range queries by descending the persisted index pages.
pub mod artifact;
pub mod btree;
pub mod builder;
pub mod compare;
pub mod convert;
pub mod error;
pub mod filing;
pub mod finding;
pub mod format;
pub mod group;
pub mod ieee;
pub mod index;
pub mod item;
pub mod law;
pub mod layout;
pub mod meta;
pub mod order;
pub mod page;
pub mod pak;
pub mod pointer;
pub mod query;
pub mod rising;
pub mod search;
pub mod set;
pub mod sorted;
pub mod source;
pub mod split;
pub mod tree;
pub mod value;
pub mod wire;

pub use btree::{PakTreeBuilder, PakTreeBuilderAccess};
pub use builder::{PakBuilder, PakVaultReference};
pub use convert::IntoPakValue;
pub use error::{PakError, PakFault, PakResult};
pub use group::PakItemDeserializeGroup;
pub use index::{PakIndex, PakIndexIdentifier};
pub use item::{PakItemDeserialize, PakItemSearchable, PakItemSerialize, PakItemTyped};
pub use meta::{PakMeta, PakSizing};
pub use page::{PakTreePage, PakTreePageEntry};
pub use pak::Pak;
pub use pointer::{PakPointer, PakTypedPointer, PakUntypedPointer};
pub use query::PakQuery;
pub use search::{PakSearch, PakTree, PakTreeMeta};
pub use set::PakPointerSet;
pub use source::PakSource;
pub use value::{PakOrder, PakValue, ValueView};
