//! Work-order desk: the verified core of a small order-management tool.
//!
//! The library parses MySQL dumps of the job table into work orders, derives
//! order numbers, contract numbers and file names, keeps the counters of the
//! JSON sequence store, and formats dates.

pub mod bytes;
pub mod text;
pub mod sql;
pub mod strmap;
pub mod order;
pub mod jobs;
pub mod numfmt;
pub mod date;
pub mod numbering;
pub mod desk;
pub mod store;
