//! A verified template-marker engine for plain text documents.
//!
//! A document is a sequence of characters; a *marker* is a placeholder of
//! the form `{{...}}` embedded in it.  This crate scans documents for
//! markers, keeps a map from marker to assigned value in sync with the
//! document across edits, substitutes values back into the document,
//! round-trips marker values through a flat `key=value` text format,
//! decorates marker spans with underline annotations without ever
//! double-decorating, wraps text selections in prefix/suffix pairs, joins
//! several documents into one, sifts a reference document's style
//! inventory, and guards the one-at-a-time rule for external conversion
//! tasks.

pub mod decorate;
pub mod import;
pub mod merge;
pub mod scan;
pub mod selection;
pub mod session;
pub mod store;
pub mod styles;
pub mod subst;
pub mod text;
