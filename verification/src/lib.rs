//! Core of a journaling application: the entry file codec and addressing
//! scheme.  Entries are persisted as fenced-frontmatter text files laid out
//! in a `root/YYYY/MM/` hierarchy; this crate derives identifiers and paths,
//! serializes and parses entry files (tolerating historical format
//! variants), and filters directory listings and search results.

use vstd::prelude::*;

pub mod assist;
pub mod entry;
pub mod frontmatter;
pub mod ident;
pub mod index;
pub mod section;
pub mod meta;
pub mod roundtrip;
pub mod settings;
pub mod text;

verus! {

/// A character is treated as whitespace by the codec's trimming rules.
/// The format's own delimiters are ASCII, so the codec trims exactly the
/// ASCII whitespace characters.
pub open spec fn is_ws(c: char) -> bool {
    c == ' ' || c == '\t' || c == '\n' || c == '\r'
}

} // verus!
