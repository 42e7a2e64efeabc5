//! The identifier and path deriver: entry identifiers have the shape
//! `YYYY-MM-DD_HHMMSS`; the first ten characters are the entry's date and
//! also encode its storage location `root/YYYY/MM/<id>.md`.

use vstd::prelude::*;
use vstd::string::*;

verus! {

use crate::meta::StorageError;
use crate::text::{find_sub, lemma_first_at_is, lemma_first_at_none, lemma_split_char_first,
    split_char};

/// An ASCII decimal digit.
pub open spec fn is_digit_char(c: char) -> bool {
    48 <= c as u32 && c as u32 <= 57
}

/// The current local wall-clock time as six digits `HHMMSS`.
/// Relies on `chrono::Local::now` and strftime formatting with `%H%M%S`:
/// hour, minute and second are each zero-padded to two digits.
#[verifier::external_body]
fn now_hhmmss() -> (r: String)
    ensures
        r@.len() == 6,
        forall|i: int| 0 <= i < 6 ==> is_digit_char(#[trigger] r@[i]),
{
    chrono::Local::now().format("%H%M%S").to_string()
}

/// Mints an entry identifier for the given date from the current local
/// wall-clock time: the date, an underscore, and six time digits.
///
/// Two calls on the same date within one second collide; callers tolerate
/// this, as no stronger uniqueness is enforced.
pub fn generate_entry_id(date: &str) -> (r: String)
    ensures
        r@.len() == date@.len() + 7,
        r@.subrange(0, date@.len() as int) == date@,
        r@[date@.len() as int] == '_',
        forall|i: int| date@.len() + 1 <= i < r@.len() ==> is_digit_char(#[trigger] r@[i]),
{
    let mut out = date.to_owned();
    out.append("_");
    let t = now_hhmmss();
    out.append(t.as_str());
    proof {
        reveal_strlit("_");
        assert("_"@ =~= seq!['_']);
        assert(out@ == date@ + seq!['_'] + t@);
        assert(out@.subrange(0, date@.len() as int) =~= date@);
        assert forall|i: int| date@.len() + 1 <= i < out@.len() implies is_digit_char(
            #[trigger] out@[i],
        ) by {
            assert(out@[i] == t@[i - date@.len() - 1]);
        }
    }
    out
}

/// The storage location of an entry: its year and month directory names
/// (taken verbatim from the identifier's date part, no numeric
/// validation).
pub struct EntryPath {
    pub year: String,
    pub month: String,
}

/// Appends each `-`-separated piece of `s`.
fn push_dash_pieces(s: &str, out: &mut Vec<String>)
    ensures
        final(out).deep_view() == old(out).deep_view() + split_char(s@, '-'),
    decreases s@.len(),
{
    proof {
        lemma_split_char_first(s@, '-');
    }
    let dash = find_sub(s, "-");
    proof {
        reveal_strlit("-");
        assert("-"@ =~= seq!['-']);
        match dash {
            Some(i) => {
                lemma_first_at_is(s@, seq!['-'], i as int);
            },
            None => {
                lemma_first_at_none(s@, seq!['-']);
            },
        }
    }
    match dash {
        None => {
            out.push(s.to_owned());
            proof {
                assert(split_char(s@, '-') == seq![s@]);
                assert(out.deep_view() =~= old(out).deep_view() + split_char(s@, '-'));
            }
        },
        Some(i) => {
            let n = s.unicode_len();
            let piece = s.substring_char(0, i);
            let rest = s.substring_char(i + 1, n);
            out.push(piece.to_owned());
            let ghost mid = out.deep_view();
            push_dash_pieces(rest, out);
            proof {
                assert(piece@ == s@.take(i as int));
                assert(rest@ == s@.skip(i as int + 1));
                assert(mid =~= old(out).deep_view() + seq![s@.take(i as int)]);
                assert(split_char(s@, '-') == seq![s@.take(i as int)] + split_char(
                    s@.skip(i as int + 1),
                    '-',
                ));
                assert(out.deep_view() =~= old(out).deep_view() + split_char(s@, '-'));
            }
        },
    }
}

/// Derives the storage location encoded by an entry identifier.
///
/// The identifier must be at least ten characters long, and its first ten
/// characters must split into exactly three `-`-separated parts, taken as
/// year, month and day.  Fails with [`StorageError::InvalidIdentifier`] on
/// a short identifier and [`StorageError::InvalidDateShape`] on a date
/// part of the wrong shape; this check guards every read, write and
/// delete.
pub fn path_for(id: &str) -> (r: Result<EntryPath, StorageError>)
    ensures
        id@.len() < 10 ==> r == Result::<EntryPath, StorageError>::Err(
            StorageError::InvalidIdentifier,
        ),
        id@.len() >= 10 && split_char(id@.take(10), '-').len() != 3 ==> r == Result::<
            EntryPath,
            StorageError,
        >::Err(StorageError::InvalidDateShape),
        id@.len() >= 10 && split_char(id@.take(10), '-').len() == 3 ==> (r matches Ok(p)
            && p.year@ == split_char(id@.take(10), '-')[0] && p.month@ == split_char(
            id@.take(10),
            '-',
        )[1]),
{
    let n = id.unicode_len();
    if n < 10 {
        return Err(StorageError::InvalidIdentifier);
    }
    let date = id.substring_char(0, 10);
    proof {
        assert(date@ == id@.take(10));
    }
    let mut parts: Vec<String> = Vec::new();
    push_dash_pieces(date, &mut parts);
    proof {
        assert(parts.deep_view() =~= split_char(date@, '-'));
    }
    if parts.len() != 3 {
        return Err(StorageError::InvalidDateShape);
    }
    let year = parts[0].clone();
    let month = parts[1].clone();
    proof {
        assert(year@ == parts.deep_view()[0]);
        assert(month@ == parts.deep_view()[1]);
    }
    Ok(EntryPath { year, month })
}

/// Derives the storage location from a date string alone, as the write
/// path does: the date must split into exactly three `-`-separated parts.
/// Fails with [`StorageError::InvalidDateShape`] otherwise.
pub fn date_dirs(date: &str) -> (r: Result<EntryPath, StorageError>)
    ensures
        split_char(date@, '-').len() != 3 ==> r == Result::<EntryPath, StorageError>::Err(
            StorageError::InvalidDateShape,
        ),
        split_char(date@, '-').len() == 3 ==> (r matches Ok(p) && p.year@ == split_char(
            date@,
            '-',
        )[0] && p.month@ == split_char(date@, '-')[1]),
{
    let mut parts: Vec<String> = Vec::new();
    push_dash_pieces(date, &mut parts);
    proof {
        assert(parts.deep_view() =~= split_char(date@, '-'));
    }
    if parts.len() != 3 {
        return Err(StorageError::InvalidDateShape);
    }
    let year = parts[0].clone();
    let month = parts[1].clone();
    proof {
        assert(year@ == parts.deep_view()[0]);
        assert(month@ == parts.deep_view()[1]);
    }
    Ok(EntryPath { year, month })
}

/// What [`timestamp_from_id`] computes: the date part of the identifier,
/// a `T`, and the six time digits regrouped as `HH:MM:SS`; nothing when
/// the identifier has no underscore or too short a time part.
pub open spec fn spec_timestamp_from_id(id: Seq<char>) -> Option<Seq<char>> {
    match crate::text::first_at(id, seq!['_']) {
        None => None,
        Some(u) => {
            let t = id.skip(u + 1);
            if t.len() >= 6 {
                Some(
                    id.take(u) + seq!['T'] + t.take(2) + seq![':'] + t.subrange(2, 4) + seq![':']
                        + t.subrange(4, 6),
                )
            } else {
                None
            }
        },
    }
}

/// Reconstructs a creation timestamp from an identifier minted by
/// [`generate_entry_id`]: `YYYY-MM-DD_HHMMSS` becomes
/// `YYYY-MM-DDTHH:MM:SS`.  Entries from before timestamps existed get
/// their creation time back-filled this way.
pub fn timestamp_from_id(id: &str) -> (r: Option<String>)
    ensures
        match r {
            Some(s) => spec_timestamp_from_id(id@) == Some(s@),
            None => spec_timestamp_from_id(id@) is None,
        },
{
    let us = find_sub(id, "_");
    proof {
        reveal_strlit("_");
        assert("_"@ =~= seq!['_']);
        match us {
            Some(i) => {
                lemma_first_at_is(id@, seq!['_'], i as int);
            },
            None => {
                lemma_first_at_none(id@, seq!['_']);
            },
        }
    }
    let u = match us {
        None => {
            return None;
        },
        Some(u) => u,
    };
    let n = id.unicode_len();
    let t = id.substring_char(u + 1, n);
    proof {
        assert(t@ == id@.skip(u as int + 1));
    }
    let tn = t.unicode_len();
    if tn < 6 {
        return None;
    }
    let mut out = id.substring_char(0, u).to_owned();
    out.append("T");
    out.append(t.substring_char(0, 2));
    out.append(":");
    out.append(t.substring_char(2, 4));
    out.append(":");
    out.append(t.substring_char(4, 6));
    proof {
        reveal_strlit("T");
        reveal_strlit(":");
        assert("T"@ =~= seq!['T']);
        assert(":"@ =~= seq![':']);
        assert(id@.subrange(0, u as int) == id@.take(u as int));
        assert(t@.subrange(0, 2) == t@.take(2));
        assert(out@ == id@.take(u as int) + seq!['T'] + t@.take(2) + seq![':'] + t@.subrange(2, 4)
            + seq![':'] + t@.subrange(4, 6));
    }
    Some(out)
}

/// The file name an entry is stored under: the identifier plus `.md`.
pub fn md_file_name(id: &str) -> (r: String)
    ensures
        r@ == id@ + seq!['.', 'm', 'd'],
{
    let mut out = id.to_owned();
    out.append(".md");
    proof {
        reveal_strlit(".md");
        assert(out@ =~= id@ + seq!['.', 'm', 'd']);
    }
    out
}

} // verus!
