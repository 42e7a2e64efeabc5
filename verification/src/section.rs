//! The body section codec: the body of an entry file is a concatenation of
//! sections, each introduced by a line starting `# `.  A `#` appearing
//! mid-line never starts a section: a section ends only at a heading mark
//! that is preceded by a newline, or at the end of the body.

use vstd::prelude::*;
use vstd::string::*;

verus! {

use crate::text::{
    first_at,
    is_at,
    lemma_first_at_is,
    lemma_first_at_none,
    spec_trim,
    find_sub,
    trim_str,
};

/// The three characters that open a new section when they start a line.
pub open spec fn heading_mark() -> Seq<char> {
    seq!['\n', '#', ' ']
}

/// Position just after the newline of the first newline-anchored `# `
/// heading, if any.
pub open spec fn spec_find_next_heading(text: Seq<char>) -> Option<int> {
    match first_at(text, heading_mark()) {
        Some(i) => Some(i + 1),
        None => None,
    }
}

/// The text a section with the given header line holds: everything between
/// the first occurrence of the header and the next newline-anchored
/// heading (or the end of the body), trimmed of surrounding whitespace.
/// An absent header yields the empty string.
pub open spec fn spec_extract_section(body: Seq<char>, header: Seq<char>) -> Seq<char> {
    match first_at(body, header) {
        None => Seq::empty(),
        Some(st) => {
            let after = body.skip(st + header.len());
            match spec_find_next_heading(after) {
                Some(nh) => spec_trim(after.take(nh)),
                None => spec_trim(after),
            }
        },
    }
}

/// The character position of the next `# ` heading that starts a line.
pub fn find_next_heading(text: &str) -> (r: Option<usize>)
    ensures
        r matches Some(i) ==> spec_find_next_heading(text@) == Some(i as int) && 1 <= i && i + 2
            <= text@.len(),
        r is None ==> spec_find_next_heading(text@) is None,
{
    let n = text.unicode_len();
    let found = find_sub(text, "\n# ");
    proof {
        reveal_strlit("\n# ");
        assert("\n# "@ =~= heading_mark());
        match found {
            Some(i) => {
                lemma_first_at_is(text@, heading_mark(), i as int);
            },
            None => {
                lemma_first_at_none(text@, heading_mark());
            },
        }
    }
    match found {
        Some(i) => {
            assert(i + 3 <= n);
            Some(i + 1)
        },
        None => None,
    }
}

/// Extracts the text under `header`, as [`spec_extract_section`] describes.
pub fn extract_section(body: &str, header: &str) -> (r: String)
    ensures
        r@ == spec_extract_section(body@, header@),
{
    let found = find_sub(body, header);
    proof {
        match found {
            Some(i) => {
                lemma_first_at_is(body@, header@, i as int);
            },
            None => {
                lemma_first_at_none(body@, header@);
            },
        }
    }
    let st = match found {
        None => {
            let r = String::new();
            assert(r@ =~= Seq::<char>::empty());
            return r;
        },
        Some(st) => st,
    };
    let n = body.unicode_len();
    let hl = header.unicode_len();
    let after = body.substring_char(st + hl, n);
    proof {
        assert(after@ == body@.skip(st + hl));
    }
    let span = match find_next_heading(after) {
        Some(nh) => {
            let s = after.substring_char(0, nh);
            proof {
                assert(s@ == after@.take(nh as int));
            }
            s
        },
        None => after,
    };
    trim_str(span).to_owned()
}

} // verus!
