//! The core of a small static-site generator: documents with front matter
//! and a line-oriented markup become HTML pages under one shared template.
//!
//! [`parse_front_matter`] splits a document into metadata and body,
//! [`markdown_to_html`] turns the body into an HTML fragment, and
//! [`render_template`] fills the template with both. [`render_document`] is the
//! three in a row, and [`plan_entry`] decides which entries of a source
//! directory are documents and what their pages are called. Reading and
//! writing files is left to the caller.
//!
//! Each function is specified over sequences of characters. The modules also
//! state and prove what follows from these specifications: what a document
//! without front matter or with one block gives ([`front_matter`]), that the
//! kinds of lines exclude one another ([`markup`]), that a placeholder without
//! a value stays ([`template`]), and when the order of the metadata does not
//! matter ([`order`]).

pub mod front_matter;
pub mod markup;
pub mod metadata;
pub mod order;
pub mod site;
pub mod template;
pub mod text;

pub use front_matter::parse_front_matter;
pub use markup::markdown_to_html;
pub use metadata::Metadata;
pub use site::{destination_file_name, is_markup_file_name, plan_entry, render_document};
pub use template::render_template;
