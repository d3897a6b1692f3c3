//! Markdown styling rules: a catalog of pure text-to-text rewrites
//! (quote canonicalization, embedded-image removal, reference-space
//! trimming, self-link simplification, phrase canonicalization and
//! footnote repositioning) together with a semantic line-break engine
//! that rewraps long lines at punctuation boundaries.
#![verifier::loop_isolation(false)]

pub mod dispatch;
pub mod engine;
pub mod footnotes;
pub mod images;
pub mod links;
pub mod phrases;
pub mod quotes;
pub mod refs;
pub mod text;

pub use dispatch::Command;
pub use dispatch::ensure_trailing_newline;
pub use engine::add_semantic_line_breaks;
pub use footnotes::move_footnotes_after_punctuation;
pub use images::remove_embedded_images;
pub use links::simplify_urls;
pub use phrases::canonicalize_through_running;
pub use quotes::canonicalize_quotes;
pub use refs::remove_extra_ref_spaces;
pub use text::chars_to_string;
pub use text::to_chars;
