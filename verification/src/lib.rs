//! Planning of format tables: tables that are nothing but data files in a tree of directories,
//! partitioned by the names of the directories.
//!
//! A scan is planned in steps. [`scan::FormatTableScan::plan`] says which directories to read, or
//! which partitions to ask the catalog for; [`scan::FormatTableScan::catalog_managed_scan_roots`]
//! makes directories of the partitions that the catalog listed; and
//! [`scan::FormatTableScan::plan_inner`] makes splits of the files that lie in the directories.
//! Between the steps the caller asks the catalog and the storage. [`repair::repair`] decides which
//! partitions to register in the catalog, and which to unregister, given what it holds and which
//! directories there are.
//!
//! How names and values of partitions are spelled is up to a [`dialect::PartitionDialect`];
//! [`hive::HiveDialect`] is one for columns of character strings, whole numbers and truth values.
//! Contracts speak of texts as sequences of characters, of rows as sequences of values that can be
//! missing, and of errors by what they say.

pub mod collect;
pub mod dialect;
pub mod error;
pub mod evaluate;
pub mod files;
pub mod format;
pub mod hive;
pub mod hive_laws;
pub mod integer;
pub mod leading;
pub mod leading_laws;
pub mod listing;
pub mod message_laws;
pub mod model;
pub mod order;
pub mod partition;
pub mod path;
pub mod path_laws;
pub mod plan_laws;
pub mod predicate;
pub mod pruning;
pub mod repair;
pub mod repair_laws;
pub mod roots;
pub mod round_trip;
pub mod scan;
pub mod scan_laws;
pub mod split;
pub mod text;
