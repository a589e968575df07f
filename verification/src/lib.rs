//! Batch renaming of television episode files into the canonical scheme
//! `<ShowName>.S<season>E<episode>.<ext>`.
//!
//! The crate holds the file selection and sequencing pipeline as verified
//! functions on plain values. The caller lists a directory and hands the
//! outcome over as a [`report::Listing`]; [`report::run`] answers with the
//! lines to write and the renames to perform, in their order. It reads and
//! changes nothing itself.
//!
//! The stages of the pipeline can be used on their own:
//! [`detect::detect_ext`] finds the extension that a listing uses most,
//! [`select::select_in_order`] picks the files with an extension and orders
//! them by path, and [`plan::plan`] gives each its episode number and its
//! new name.
pub mod config;
pub mod detect;
pub mod entry;
pub mod naming;
pub mod order;
pub mod plan;
pub mod report;
pub mod select;
