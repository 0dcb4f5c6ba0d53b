//! An in-memory columnar relational store.
//!
//! Every column interns its values in a [`Dictionary`] and stores one id per
//! row. Tables and the read-only views over them share the [`Relation`]
//! contract, on which projection, filtering, grouped aggregation and row
//! materialisation are built once.

pub mod bitmap;
pub mod key;
pub mod dictionary;
pub mod value;
pub mod column;
pub mod table_column;
pub mod schema;
pub mod relation;
pub mod view;
pub mod aggregate;
pub mod group;

pub use aggregate::{Agg, AggFunc, Average, Count};
pub use bitmap::BitMap;
pub use column::{Column, RowId, NULL_KEY_ID};
pub use dictionary::{Dictionary, KeyId};
pub use group::GroupBy;
pub use key::OrderedKey;
pub use relation::{Insertable, Relation, Table, Tuple, Tuples};
pub use schema::{Attribute, Definition};
pub use table_column::TableColumn;
pub use view::{EqualTo, FilteredRelation, LessThan, Select, SelectedRelation};
pub use value::{AsValue, Null, TypeKind, Value, NULL};
