//! A small book-catalog manager: a catalog of books with field-based search
//! and checkout, a session state machine driving a fixed set of interaction
//! screens, and a canonical JSON representation of the catalog for
//! persistence.

pub mod app;
pub mod codec;
pub mod library;
pub mod text;
