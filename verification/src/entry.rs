//! The entry codec: whole-file serialization and parsing, composing the
//! frontmatter and body-section codecs, and owning the backward
//! compatibility fallbacks (legacy `# Correction` / `# Translation` section
//! labels).

use vstd::prelude::*;
use vstd::string::*;

verus! {

use crate::frontmatter::{
    colon_sp,
    dashes,
    escape_str,
    escape_title,
    fence_end,
    find_fence,
    key_created_at,
    key_date,
    key_date_format,
    key_id,
    key_languages,
    key_mode,
    key_title,
    key_updated_at,
    parse_frontmatter,
    spec_parse_frontmatter,
};
use crate::meta::{
    DiaryEntry,
    EntryMeta,
    EntryView,
    MetaView,
    StorageError,
    Translation,
    translations_map,
};
use crate::section::{extract_section, spec_extract_section};
use crate::text::{is_prefix, str_eq, trim_str};

pub open spec fn header_original() -> Seq<char> {
    seq!['#', ' ', 'O', 'r', 'i', 'g', 'i', 'n', 'a', 'l']
}

pub open spec fn header_correction() -> Seq<char> {
    seq!['#', ' ', 'C', 'o', 'r', 'r', 'e', 'c', 't', 'i', 'o', 'n']
}

pub open spec fn header_translation() -> Seq<char> {
    seq!['#', ' ', 'T', 'r', 'a', 'n', 's', 'l', 'a', 't', 'i', 'o', 'n']
}

pub open spec fn mode_correction() -> Seq<char> {
    seq!['c', 'o', 'r', 'r', 'e', 'c', 't', 'i', 'o', 'n']
}

/// The header line introducing the section of one language code.
pub open spec fn lang_header(code: Seq<char>) -> Seq<char> {
    seq!['#', ' '] + code
}

/// A value wrapped in double quotes.
pub open spec fn quoted(s: Seq<char>) -> Seq<char> {
    seq!['"'] + s + seq!['"']
}

/// Language codes joined with `, `.
pub open spec fn join_codes(ls: Seq<Seq<char>>) -> Seq<char>
    decreases ls.len(),
{
    if ls.len() == 0 {
        Seq::empty()
    } else if ls.len() == 1 {
        ls[0]
    } else {
        ls[0] + seq![',', ' '] + join_codes(ls.drop_first())
    }
}

/// An optional `key: value` frontmatter line, emitted only when present.
pub open spec fn opt_line(key: Seq<char>, v: Option<Seq<char>>, q: bool) -> Seq<char> {
    match v {
        None => Seq::empty(),
        Some(s) => key + colon_sp() + (if q {
            quoted(s)
        } else {
            s
        }) + seq!['\n'],
    }
}

/// The serialized frontmatter block: opening fence, one `key: value` line
/// per field in fixed order (optional fields only when present), closing
/// fence.
pub open spec fn spec_fm_block(m: MetaView) -> Seq<char> {
    dashes() + seq!['\n'] + key_id() + colon_sp() + m.id + seq!['\n'] + key_title() + colon_sp()
        + quoted(escape_str(m.title)) + seq!['\n'] + key_date() + colon_sp() + m.date + seq!['\n']
        + key_mode() + colon_sp() + m.mode + seq!['\n'] + key_languages() + colon_sp() + seq!['[']
        + join_codes(m.languages) + seq![']'] + seq!['\n'] + opt_line(
        key_date_format(),
        m.date_format,
        true,
    ) + opt_line(key_created_at(), m.created_at, false) + opt_line(
        key_updated_at(),
        m.updated_at,
        false,
    ) + dashes() + seq!['\n']
}

/// The text serialized for one language: its recorded translation, or
/// nothing when none was produced yet.
pub open spec fn text_for(tr: Map<Seq<char>, Seq<char>>, code: Seq<char>) -> Seq<char> {
    if tr.contains_key(code) {
        tr[code]
    } else {
        Seq::empty()
    }
}

/// The serialized body sections of the given languages, in order.
pub open spec fn sections_cat(ls: Seq<Seq<char>>, tr: Map<Seq<char>, Seq<char>>) -> Seq<char>
    decreases ls.len(),
{
    if ls.len() == 0 {
        Seq::empty()
    } else {
        seq!['\n'] + lang_header(ls[0]) + seq!['\n', '\n'] + text_for(tr, ls[0]) + seq!['\n']
            + sections_cat(ls.drop_first(), tr)
    }
}

/// The full serialized entry file.
pub open spec fn spec_serialize_entry(e: EntryView) -> Seq<char> {
    spec_fm_block(e.meta) + seq!['\n'] + header_original() + seq!['\n', '\n'] + e.original
        + seq!['\n'] + sections_cat(e.meta.languages, e.translations)
}

/// The body region of an entry file whose fences were found: everything
/// after the closing fence, trimmed.
pub open spec fn spec_body(s: Seq<char>) -> Seq<char> {
    let rest = s.skip(3);
    match fence_end(rest) {
        None => Seq::empty(),
        Some(end) => if end + 4 < rest.len() {
            crate::text::spec_trim(rest.skip(end + 4))
        } else {
            Seq::empty()
        },
    }
}

/// The translations parsed from the body for the declared languages; on a
/// repeated code the earlier occurrence wins, matching linear lookup.
pub open spec fn collect_translations(ls: Seq<Seq<char>>, body: Seq<char>) -> Map<
    Seq<char>,
    Seq<char>,
>
    decreases ls.len(),
{
    if ls.len() == 0 {
        Map::empty()
    } else {
        let rest = collect_translations(ls.drop_first(), body);
        let t = spec_extract_section(body, lang_header(ls[0]));
        if t.len() > 0 {
            rest.insert(ls[0], t)
        } else {
            rest
        }
    }
}

/// The fixed section label older files used in place of a language code.
pub open spec fn legacy_label(mode: Seq<char>) -> Seq<char> {
    if mode == mode_correction() {
        header_correction()
    } else {
        header_translation()
    }
}

/// The parsed translations with the legacy fallback applied: when no
/// per-language section yields text and at least one language is declared,
/// the legacy label is tried and a non-empty result is assigned to the
/// first language.
pub open spec fn spec_entry_translations(m: MetaView, body: Seq<char>) -> Map<
    Seq<char>,
    Seq<char>,
> {
    let tr = collect_translations(m.languages, body);
    if tr.dom() == Set::<Seq<char>>::empty() && m.languages.len() > 0 {
        let t = spec_extract_section(body, legacy_label(m.mode));
        if t.len() > 0 {
            Map::empty().insert(m.languages[0], t)
        } else {
            tr
        }
    } else {
        tr
    }
}

/// What [`parse_entry`] decodes, when the frontmatter is well-formed.
pub open spec fn spec_parse_entry(s: Seq<char>) -> Option<EntryView> {
    match spec_parse_frontmatter(s) {
        None => None,
        Some(m) => {
            let body = spec_body(s);
            Some(
                EntryView {
                    meta: m,
                    original: spec_extract_section(body, header_original()),
                    translations: spec_entry_translations(m, body),
                },
            )
        },
    }
}

/// Appends `, `-joined language codes.
fn push_joined(out: &mut String, langs: &Vec<String>, from: usize)
    requires
        from <= langs@.len(),
    ensures
        final(out)@ == old(out)@ + join_codes(langs.deep_view().skip(from as int)),
    decreases langs@.len() - from,
{
    if from == langs.len() {
        proof {
            assert(langs.deep_view().skip(from as int).len() == 0);
            assert(out@ =~= out@ + join_codes(langs.deep_view().skip(from as int)));
        }
        return ;
    }
    out.append(langs[from].as_str());
    if from + 1 == langs.len() {
        proof {
            let tail = langs.deep_view().skip(from as int);
            assert(tail.len() == 1);
            assert(tail[0] == langs@[from as int]@);
            assert(out@ =~= old(out)@ + join_codes(tail));
        }
        return ;
    }
    out.append(", ");
    push_joined(out, langs, from + 1);
    proof {
        reveal_strlit(", ");
        let tail = langs.deep_view().skip(from as int);
        assert(tail.len() >= 2);
        assert(tail[0] == langs@[from as int]@);
        assert(tail.drop_first() =~= langs.deep_view().skip(from as int + 1));
        assert(", "@ =~= seq![',', ' ']);
        assert(out@ =~= old(out)@ + join_codes(tail));
    }
}

/// Appends the serialized body sections for the languages from `from` on.
fn push_sections(out: &mut String, entry: &DiaryEntry, from: usize)
    requires
        from <= entry.meta.languages@.len(),
    ensures
        final(out)@ == old(out)@ + sections_cat(
            entry@.meta.languages.skip(from as int),
            entry@.translations,
        ),
    decreases entry.meta.languages@.len() - from,
{
    if from == entry.meta.languages.len() {
        proof {
            assert(entry@.meta.languages.skip(from as int).len() == 0);
            assert(out@ =~= out@ + sections_cat(
                entry@.meta.languages.skip(from as int),
                entry@.translations,
            ));
        }
        return ;
    }
    let lang = &entry.meta.languages[from];
    out.append("\n# ");
    out.append(lang.as_str());
    out.append("\n\n");
    match entry.translation(lang.as_str()) {
        Some(t) => {
            out.append(t.as_str());
        },
        None => {},
    }
    out.append("\n");
    let ghost mid = out@;
    push_sections(out, entry, from + 1);
    proof {
        reveal_strlit("\n# ");
        reveal_strlit("\n\n");
        reveal_strlit("\n");
        let ls = entry@.meta.languages.skip(from as int);
        assert(ls.len() > 0);
        assert(ls[0] == entry@.meta.languages[from as int]);
        assert(ls.drop_first() =~= entry@.meta.languages.skip(from as int + 1));
        assert(mid =~= old(out)@ + seq!['\n'] + lang_header(ls[0]) + seq!['\n', '\n'] + text_for(
            entry@.translations,
            ls[0],
        ) + seq!['\n']);
        assert(out@ =~= old(out)@ + sections_cat(ls, entry@.translations));
    }
}

/// Serializes an entry to its on-disk text: frontmatter block, a blank
/// line, the `# Original` section, then one section per language in
/// declared order.  Deterministic: equal entries yield identical text.
#[verifier::rlimit(100)]
pub fn serialize_entry(entry: &DiaryEntry) -> (r: String)
    ensures
        r@ == spec_serialize_entry(entry@),
{
    let ghost m = entry@.meta;
    let mut out = String::new();
    out.append("---\nid: ");
    out.append(entry.meta.id.as_str());
    out.append("\ntitle: \"");
    let esc = escape_title(entry.meta.title.as_str());
    out.append(esc.as_str());
    out.append("\"\ndate: ");
    out.append(entry.meta.date.as_str());
    out.append("\nmode: ");
    out.append(entry.meta.mode.as_str());
    out.append("\nlanguages: [");
    push_joined(&mut out, &entry.meta.languages, 0);
    out.append("]\n");
    let ghost head = dashes() + seq!['\n'] + key_id() + colon_sp() + m.id + seq!['\n']
        + key_title() + colon_sp() + quoted(escape_str(m.title)) + seq!['\n'] + key_date()
        + colon_sp() + m.date + seq!['\n'] + key_mode() + colon_sp() + m.mode + seq!['\n']
        + key_languages() + colon_sp() + seq!['['] + join_codes(m.languages) + seq![']'] + seq![
        '\n',
    ];
    proof {
        reveal_strlit("---\nid: ");
        reveal_strlit("\ntitle: \"");
        reveal_strlit("\"\ndate: ");
        reveal_strlit("\nmode: ");
        reveal_strlit("\nlanguages: [");
        reveal_strlit("]\n");
        assert(entry.meta.languages.deep_view().skip(0) == entry.meta.languages.deep_view());
        assert(out@ =~= head);
    }
    match &entry.meta.date_format {
        Some(f) => {
            out.append("date_format: \"");
            out.append(f.as_str());
            out.append("\"\n");
            proof {
                reveal_strlit("date_format: \"");
                reveal_strlit("\"\n");
                assert(out@ =~= head + opt_line(key_date_format(), m.date_format, true));
            }
        },
        None => {
            proof {
                assert(out@ =~= head + opt_line(key_date_format(), m.date_format, true));
            }
        },
    }
    let ghost c1 = head + opt_line(key_date_format(), m.date_format, true);
    match &entry.meta.created_at {
        Some(t) => {
            out.append("created_at: ");
            out.append(t.as_str());
            out.append("\n");
            proof {
                reveal_strlit("created_at: ");
                reveal_strlit("\n");
                assert(out@ =~= c1 + opt_line(key_created_at(), m.created_at, false));
            }
        },
        None => {
            proof {
                assert(out@ =~= c1 + opt_line(key_created_at(), m.created_at, false));
            }
        },
    }
    let ghost c2 = c1 + opt_line(key_created_at(), m.created_at, false);
    match &entry.meta.updated_at {
        Some(t) => {
            out.append("updated_at: ");
            out.append(t.as_str());
            out.append("\n");
            proof {
                reveal_strlit("updated_at: ");
                reveal_strlit("\n");
                assert(out@ =~= c2 + opt_line(key_updated_at(), m.updated_at, false));
            }
        },
        None => {
            proof {
                assert(out@ =~= c2 + opt_line(key_updated_at(), m.updated_at, false));
            }
        },
    }
    out.append("---\n\n# Original\n\n");
    out.append(entry.original.as_str());
    out.append("\n");
    proof {
        reveal_strlit("---\n\n# Original\n\n");
        reveal_strlit("\n");
        assert(spec_fm_block(m) =~= c2 + opt_line(key_updated_at(), m.updated_at, false)
            + dashes() + seq!['\n']);
        assert(out@ =~= spec_fm_block(m) + seq!['\n'] + header_original() + seq!['\n', '\n']
            + entry@.original + seq!['\n']);
    }
    push_sections(&mut out, entry, 0);
    proof {
        assert(entry@.meta.languages.skip(0) == entry@.meta.languages);
        assert(out@ =~= spec_serialize_entry(entry@));
    }
    out
}

/// Parses the translation sections for the declared languages.
fn collect_exec(body: &str, langs: &Vec<String>, from: usize) -> (r: Vec<Translation>)
    requires
        from <= langs@.len(),
    ensures
        translations_map(r@) == collect_translations(langs.deep_view().skip(from as int), body@),
    decreases langs@.len() - from,
{
    if from == langs.len() {
        let r: Vec<Translation> = Vec::new();
        proof {
            assert(langs.deep_view().skip(from as int).len() == 0);
            assert(translations_map(r@) =~= collect_translations(
                langs.deep_view().skip(from as int),
                body@,
            ));
        }
        return r;
    }
    let mut rest = collect_exec(body, langs, from + 1);
    let lang = &langs[from];
    let mut header = String::new();
    header.append("# ");
    header.append(lang.as_str());
    let t = extract_section(body, header.as_str());
    proof {
        reveal_strlit("# ");
        let ls = langs.deep_view().skip(from as int);
        assert(ls[0] == langs@[from as int]@);
        assert(header@ =~= lang_header(ls[0]));
    }
    if t.unicode_len() > 0 {
        let ghost before = rest@;
        rest.insert(0, Translation { lang: lang.clone(), text: t });
        proof {
            let ls = langs.deep_view().skip(from as int);
            assert(ls.drop_first() =~= langs.deep_view().skip(from as int + 1));
            assert(rest@.drop_first() =~= before);
            assert(rest@[0].lang@ == ls[0]);
            assert(rest@[0].text@ == spec_extract_section(body@, lang_header(ls[0])));
            assert(translations_map(rest@) =~~= collect_translations(ls, body@));
        }
    } else {
        proof {
            let ls = langs.deep_view().skip(from as int);
            assert(ls.drop_first() =~= langs.deep_view().skip(from as int + 1));
            assert(translations_map(rest@) =~~= collect_translations(ls, body@));
        }
    }
    rest
}

/// Parses a whole entry file.
///
/// Fails with [`StorageError::MalformedFrontmatter`] exactly when the
/// frontmatter cannot be decoded; otherwise the result is exactly what
/// [`spec_parse_entry`] describes.
pub fn parse_entry(content: &str) -> (r: Result<DiaryEntry, StorageError>)
    ensures
        r is Ok <==> spec_parse_entry(content@) is Some,
        r matches Ok(e) ==> spec_parse_entry(content@) == Some(e@),
        r matches Err(er) ==> er == StorageError::MalformedFrontmatter,
{
    let meta = match parse_frontmatter(content) {
        None => {
            return Err(StorageError::MalformedFrontmatter);
        },
        Some(m) => m,
    };
    let n = content.unicode_len();
    proof {
        assert(is_prefix(content@, dashes()));
    }
    let rest = content.substring_char(3, n);
    proof {
        assert(rest@ == content@.skip(3));
    }
    let end = match find_fence(rest) {
        None => {
            proof {
                assert(false);
            }
            return Err(StorageError::MalformedFrontmatter);
        },
        Some(e) => e,
    };
    let rn = rest.unicode_len();
    let body_string: String;
    if end + 4 < rn {
        let tail = rest.substring_char(end + 4, rn);
        proof {
            assert(tail@ == rest@.skip(end as int + 4));
        }
        body_string = trim_str(tail).to_owned();
    } else {
        body_string = String::new();
    }
    let body = body_string.as_str();
    proof {
        assert(body@ == spec_body(content@));
    }
    let original = extract_section(body, "# Original");
    proof {
        reveal_strlit("# Original");
        assert("# Original"@ =~= header_original());
    }
    let mut translations = collect_exec(body, &meta.languages, 0);
    let ghost m = spec_parse_frontmatter(content@).unwrap();
    let ghost tr = collect_translations(m.languages, body@);
    let ghost expected = spec_entry_translations(m, body@);
    proof {
        assert(meta.languages.deep_view().skip(0) == meta.languages.deep_view());
        assert(meta@ == m);
        assert(translations_map(translations@) == tr);
    }
    if translations.len() == 0 && meta.languages.len() > 0 {
        proof {
            assert(translations_map(translations@) =~= Map::<Seq<char>, Seq<char>>::empty());
            assert(tr.dom() =~= Set::<Seq<char>>::empty());
        }
        let label: &str = if str_eq(meta.mode.as_str(), "correction") {
            "# Correction"
        } else {
            "# Translation"
        };
        proof {
            reveal_strlit("correction");
            reveal_strlit("# Correction");
            reveal_strlit("# Translation");
            assert("correction"@ =~= mode_correction());
            assert("# Correction"@ =~= header_correction());
            assert("# Translation"@ =~= header_translation());
            assert(label@ == legacy_label(m.mode));
        }
        let t = extract_section(body, label);
        if t.unicode_len() > 0 {
            let first = meta.languages[0].clone();
            let ghost before = translations@;
            translations.push(Translation { lang: first, text: t });
            proof {
                assert(first@ == meta.languages@[0]@);
                assert(meta.languages.deep_view()[0] == meta.languages@[0]@);
                assert(translations@.len() == 1);
                assert(translations@[0].lang@ == m.languages[0]);
                assert(translations@[0].text@ == t@);
                assert(translations@.drop_first() =~= Seq::<Translation>::empty());
                assert(translations_map(Seq::<Translation>::empty()) == Map::<
                    Seq<char>,
                    Seq<char>,
                >::empty());
                assert(translations_map(translations@) == translations_map(
                    translations@.drop_first(),
                ).insert(translations@[0].lang@, translations@[0].text@));
                assert(translations_map(translations@) == Map::<
                    Seq<char>,
                    Seq<char>,
                >::empty().insert(m.languages[0], t@));
                assert(translations_map(translations@) == expected);
            }
        } else {
            proof {
                assert(translations_map(translations@) == expected);
            }
        }
    } else {
        proof {
            if translations@.len() > 0 {
                let ts = translations@;
                assert(translations_map(ts) == translations_map(ts.drop_first()).insert(
                    ts[0].lang@,
                    ts[0].text@,
                ));
                assert(tr.dom().contains(ts[0].lang@));
                assert(!Set::<Seq<char>>::empty().contains(ts[0].lang@));
                assert(tr.dom() != Set::<Seq<char>>::empty());
            }
            assert(translations_map(translations@) == expected);
        }
    }
    let entry = DiaryEntry { meta, original, translations };
    proof {
        assert(entry@ =~~= spec_parse_entry(content@).unwrap());
    }
    Ok(entry)
}

} // verus!
