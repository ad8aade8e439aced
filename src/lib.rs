//! Catalog reconciliation for a library of comic archives.
//!
//! A library is a root directory whose visible subdirectories are series and whose
//! visible `.cbz` files are chapters. The modules, leaf first:
//!
//! - `differentiation`: first-match comparison of an old and a new collection by key.
//! - `numbering`: the sort key of a chapter file, from the series' ordering rules and the
//!   digit runs of the file's stem.
//! - `scanner`: from directory listings to series and numbered chapters.
//! - `reconcile`: from the persisted catalog and a scan to what must be added.
//! - `orderings`: rank bookkeeping when an ordering rule is deleted.
//! - `pages`: which archive entry holds a page, and its media type.
//! - `settings`: the configured libraries and which one is open.
//!
//! Series and chapters that vanished from disk are reported by the reconciliation and
//! never removed from the catalog.

pub mod differentiation;
pub mod entities;
pub mod error;
pub mod numbering;
pub mod orderings;
pub mod pages;
pub mod reconcile;
pub mod scanner;
pub mod settings;
