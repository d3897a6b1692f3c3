//! The rule dispatcher: a closed enumeration of the rewrite rules,
//! each mapped to exactly one transform, and the trailing-newline
//! guarantee the caller needs before persisting a document.
use vstd::prelude::*;

use crate::engine::add_semantic_line_breaks;
use crate::engine::line_break_engine;
use crate::footnotes::default_puncts;
use crate::footnotes::move_footnotes_after_punctuation;
use crate::footnotes::swap_footnotes;
use crate::images::remove_embedded_images;
use crate::images::strip_images;
use crate::links::simplify_links;
use crate::links::simplify_urls;
use crate::phrases::canonicalize_through_running;
use crate::phrases::spec_through_running;
use crate::quotes::canon_quotes;
use crate::quotes::canonicalize_quotes;
use crate::refs::remove_extra_ref_spaces;
use crate::refs::trim_ref_spaces;
use crate::text::chars_to_string;
use crate::text::to_chars;

verus! {

/// The catalog of rewrite rules, one variant per rule.
#[derive(Clone, Copy, PartialEq, Eq, Debug)]
pub enum Command {
    /// Replace fancy (curly) quotes with simple ASCII quotes.
    Quotes,
    /// Delete large embedded images, leaving a placeholder for each.
    EmbeddedImages,
    /// Delete extra spaces after a reference label.
    ExtraRefSpaces,
    /// Simplify self-links `[URL](URL)` to `<URL>`.
    SimplifyUrls,
    /// Rewrap long non-heading lines at punctuation boundaries.
    SemanticLineBreaks,
    /// Canonicalize the "through-running" phrase family.
    ThroughRunning,
    /// Move footnote markers to just after adjacent punctuation.
    FootnotesAfterPunctuation,
}

/// What each rule returns on a given document.
pub open spec fn spec_rewrite(cmd: Command, doc: Seq<char>) -> Seq<char> {
    match cmd {
        Command::Quotes => canon_quotes(doc),
        Command::EmbeddedImages => strip_images(doc),
        Command::ExtraRefSpaces => trim_ref_spaces(doc),
        Command::SimplifyUrls => simplify_links(doc),
        Command::SemanticLineBreaks => line_break_engine(doc),
        Command::ThroughRunning => spec_through_running(doc),
        Command::FootnotesAfterPunctuation => swap_footnotes(doc, default_puncts()),
    }
}

impl Command {
    /// Apply the one transform this rule names to the document.
    pub fn rewrite(&self, before: String) -> (after: String)
        ensures
            after@ == spec_rewrite(*self, before@),
    {
        match *self {
            Command::Quotes => canonicalize_quotes(before),
            Command::EmbeddedImages => remove_embedded_images(before),
            Command::ExtraRefSpaces => remove_extra_ref_spaces(before),
            Command::SimplifyUrls => simplify_urls(before),
            Command::SemanticLineBreaks => add_semantic_line_breaks(before),
            Command::ThroughRunning => canonicalize_through_running(before),
            Command::FootnotesAfterPunctuation => move_footnotes_after_punctuation(before),
        }
    }
}

/// What the document looks like once a trailing newline is assured.
pub open spec fn spec_with_trailing_newline(s: Seq<char>) -> Seq<char> {
    if s.len() > 0 && s[s.len() - 1] == '\n' {
        s
    } else {
        s.push('\n')
    }
}

/// Append a newline unless the document already ends with one; the
/// caller persists the result.
pub fn ensure_trailing_newline(s: String) -> (out: String)
    ensures
        out@ == spec_with_trailing_newline(s@),
{
    let chars = to_chars(s.as_str());
    if chars.len() > 0 && chars[chars.len() - 1] == '\n' {
        return s;
    }
    let mut v = chars;
    v.push('\n');
    chars_to_string(&v)
}

} // verus!
