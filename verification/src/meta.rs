//! The entry data model: metadata, whole entries, listing projections, and
//! the error taxonomy of the storage layer.

use vstd::prelude::*;
use vstd::string::*;

verus! {

use crate::text::str_eq;

/// Mathematical model of [`EntryMeta`]: every text field as a character
/// sequence.
#[verifier::ext_equal]
pub ghost struct MetaView {
    pub id: Seq<char>,
    pub date: Seq<char>,
    pub title: Seq<char>,
    pub mode: Seq<char>,
    pub languages: Seq<Seq<char>>,
    pub date_format: Option<Seq<char>>,
    pub created_at: Option<Seq<char>>,
    pub updated_at: Option<Seq<char>>,
}

/// Structured metadata of one diary entry.
///
/// `id` has the shape `YYYY-MM-DD_HHMMSS`; `languages` is the ordered list
/// of target-language codes and fixes the order of body sections on
/// serialization.  `created_at` / `updated_at` are `YYYY-MM-DDTHH:MM:SS`
/// timestamps.
#[derive(Debug, Clone)]
pub struct EntryMeta {
    pub id: String,
    pub date: String,
    pub title: String,
    pub mode: String,
    pub languages: Vec<String>,
    pub date_format: Option<String>,
    pub created_at: Option<String>,
    pub updated_at: Option<String>,
}

pub open spec fn view_opt(o: Option<String>) -> Option<Seq<char>> {
    match o {
        Some(s) => Some(s@),
        None => None,
    }
}

impl View for EntryMeta {
    type V = MetaView;

    open spec fn view(&self) -> MetaView {
        MetaView {
            id: self.id@,
            date: self.date@,
            title: self.title@,
            mode: self.mode@,
            languages: self.languages.deep_view(),
            date_format: view_opt(self.date_format),
            created_at: view_opt(self.created_at),
            updated_at: view_opt(self.updated_at),
        }
    }
}

/// One produced translation: a target-language code and its text.
#[derive(Debug, Clone)]
pub struct Translation {
    pub lang: String,
    pub text: String,
}

/// The mapping encoded by a translation list; when a language code is
/// repeated, the first entry wins, matching linear lookup.
pub open spec fn translations_map(ts: Seq<Translation>) -> Map<Seq<char>, Seq<char>>
    decreases ts.len(),
{
    if ts.len() == 0 {
        Map::empty()
    } else {
        translations_map(ts.drop_first()).insert(ts[0].lang@, ts[0].text@)
    }
}

/// Mathematical model of [`DiaryEntry`].
#[verifier::ext_equal]
pub ghost struct EntryView {
    pub meta: MetaView,
    pub original: Seq<char>,
    pub translations: Map<Seq<char>, Seq<char>>,
}

/// One diary entry: metadata, the source-language text, and the produced
/// translation (or correction) texts keyed by language code.
///
/// A language present in `meta.languages` with no entry in `translations`
/// is valid: that translation has not been produced yet.
#[derive(Debug, Clone)]
pub struct DiaryEntry {
    pub meta: EntryMeta,
    pub original: String,
    pub translations: Vec<Translation>,
}

impl View for DiaryEntry {
    type V = EntryView;

    open spec fn view(&self) -> EntryView {
        EntryView {
            meta: self.meta@,
            original: self.original@,
            translations: translations_map(self.translations@),
        }
    }
}

fn translation_from<'a>(ts: &'a Vec<Translation>, from: usize, lang: &str) -> (r: Option<
    &'a String,
>)
    requires
        from <= ts@.len(),
    ensures
        match r {
            Some(s) => translations_map(ts@.skip(from as int)).contains_key(lang@) && s@
                == translations_map(ts@.skip(from as int))[lang@],
            None => !translations_map(ts@.skip(from as int)).contains_key(lang@),
        },
    decreases ts@.len() - from,
{
    if from == ts.len() {
        assert(ts@.skip(from as int).len() == 0);
        None
    } else {
        proof {
            assert(ts@.skip(from as int).drop_first() =~= ts@.skip(from as int + 1));
            assert(ts@.skip(from as int)[0] == ts@[from as int]);
        }
        if str_eq(ts[from].lang.as_str(), lang) {
            Some(&ts[from].text)
        } else {
            translation_from(ts, from + 1, lang)
        }
    }
}

impl DiaryEntry {
    /// The translation text recorded for `lang`, if any.
    pub fn translation<'a>(&'a self, lang: &str) -> (r: Option<&'a String>)
        ensures
            match r {
                Some(s) => self@.translations.contains_key(lang@) && s@
                    == self@.translations[lang@],
                None => !self@.translations.contains_key(lang@),
            },
    {
        proof {
            assert(self.translations@.skip(0) =~= self.translations@);
        }
        translation_from(&self.translations, 0, lang)
    }
}

/// Mathematical model of [`EntryListItem`].
#[verifier::ext_equal]
pub ghost struct ItemView {
    pub id: Seq<char>,
    pub date: Seq<char>,
    pub title: Seq<char>,
    pub mode: Seq<char>,
    pub languages: Seq<Seq<char>>,
    pub created_at: Option<Seq<char>>,
    pub updated_at: Option<Seq<char>>,
}

/// Projection of [`EntryMeta`] used for directory listings; always derived
/// from a parsed entry, never constructed independently.
#[derive(Debug, Clone)]
pub struct EntryListItem {
    pub id: String,
    pub date: String,
    pub title: String,
    pub mode: String,
    pub languages: Vec<String>,
    pub created_at: Option<String>,
    pub updated_at: Option<String>,
}

impl View for EntryListItem {
    type V = ItemView;

    open spec fn view(&self) -> ItemView {
        ItemView {
            id: self.id@,
            date: self.date@,
            title: self.title@,
            mode: self.mode@,
            languages: self.languages.deep_view(),
            created_at: view_opt(self.created_at),
            updated_at: view_opt(self.updated_at),
        }
    }
}

impl DeepView for EntryListItem {
    type V = ItemView;

    open spec fn deep_view(&self) -> ItemView {
        self.view()
    }
}

/// The projection of a metadata record onto its listing fields.
pub open spec fn spec_project(m: MetaView) -> ItemView {
    ItemView {
        id: m.id,
        date: m.date,
        title: m.title,
        mode: m.mode,
        languages: m.languages,
        created_at: m.created_at,
        updated_at: m.updated_at,
    }
}

/// Clones a list of strings.
pub fn clone_strings(v: &Vec<String>) -> (r: Vec<String>)
    ensures
        r@ == v@,
{
    let r = v.clone();
    proof {
        assert forall|i: int| 0 <= i < v@.len() implies r@[i] == v@[i] by {
            assert(cloned::<String>(v@[i], r@[i]));
        }
        assert(r@ =~= v@);
    }
    r
}

/// Clones an optional string.
pub fn clone_opt_string(v: &Option<String>) -> (r: Option<String>)
    ensures
        view_opt(r) == view_opt(*v),
        r is Some <==> v is Some,
{
    match v {
        Some(s) => Some(s.clone()),
        None => None,
    }
}

impl EntryMeta {
    /// The listing projection of this metadata record.
    pub fn to_list_item(&self) -> (r: EntryListItem)
        ensures
            r@ == spec_project(self@),
    {
        let r = EntryListItem {
            id: self.id.clone(),
            date: self.date.clone(),
            title: self.title.clone(),
            mode: self.mode.clone(),
            languages: clone_strings(&self.languages),
            created_at: clone_opt_string(&self.created_at),
            updated_at: clone_opt_string(&self.updated_at),
        };
        proof {
            assert(r.languages.deep_view() =~= self.languages.deep_view()) by {
                assert(forall|i: int| 0 <= i < r.languages@.len() ==> r.languages@[i]
                    == self.languages@[i]);
            }
        }
        r
    }
}

/// Why a storage-layer operation was refused.
#[derive(Debug, Clone, Copy, PartialEq, Eq, Structural)]
pub enum StorageError {
    /// An entry identifier failed the length or shape check.
    InvalidIdentifier,
    /// A date string did not split into three `-`-separated components.
    InvalidDateShape,
    /// No opening fence, or no newline-anchored closing fence, was found.
    MalformedFrontmatter,
}

impl StorageError {
    /// A human-readable description of the error.
    pub fn message(&self) -> (r: String)
        ensures
            *self is InvalidIdentifier ==> r@ == "Invalid id format"@,
            *self is InvalidDateShape ==> r@ == "Invalid date in id"@,
            *self is MalformedFrontmatter ==> r@ == "Failed to parse frontmatter"@,
    {
        match self {
            StorageError::InvalidIdentifier => String::from_str("Invalid id format"),
            StorageError::InvalidDateShape => String::from_str("Invalid date in id"),
            StorageError::MalformedFrontmatter => String::from_str("Failed to parse frontmatter"),
        }
    }
}

} // verus!
