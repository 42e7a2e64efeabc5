use diary_core::assist::{correction_prompt, split_correction_response, translation_prompt};
use diary_core::entry::{parse_entry, serialize_entry};
use diary_core::ident::{date_dirs, generate_entry_id, md_file_name, path_for, timestamp_from_id};
use diary_core::index::{listing_from_files, search_from_files, ScannedFile};
use diary_core::meta::{DiaryEntry, EntryMeta, StorageError, Translation};
use diary_core::section::{extract_section, find_next_heading};
use diary_core::settings::{default_languages, language_display_name, AppConfig};

fn entry_with(
    id: &str,
    title: &str,
    original: &str,
    languages: Vec<&str>,
    translations: Vec<(&str, &str)>,
    date_format: Option<&str>,
) -> DiaryEntry {
    DiaryEntry {
        meta: EntryMeta {
            id: id.to_string(),
            date: "2026-02-24".to_string(),
            title: title.to_string(),
            mode: "correction".to_string(),
            languages: languages.into_iter().map(String::from).collect(),
            date_format: date_format.map(String::from),
            created_at: Some("2026-02-24T14:30:52".to_string()),
            updated_at: None,
        },
        original: original.to_string(),
        translations: translations
            .into_iter()
            .map(|(k, v)| Translation { lang: k.to_string(), text: v.to_string() })
            .collect(),
    }
}

#[test]
fn round_trip_with_date_format() {
    let entry = entry_with(
        "2026-02-24_090000",
        "Formats",
        "Some text",
        vec!["en"],
        vec![("en", "Some corrected text")],
        Some("DD/MM/YYYY"),
    );
    let parsed = parse_entry(&serialize_entry(&entry)).unwrap();
    assert_eq!(parsed.meta.date_format.as_deref(), Some("DD/MM/YYYY"));
    assert_eq!(parsed.meta.created_at.as_deref(), Some("2026-02-24T14:30:52"));
    assert_eq!(parsed.meta.updated_at, None);
    assert_eq!(parsed.original, "Some text");
}

#[test]
fn round_trip_missing_translation_is_not_yet_produced() {
    // A declared language with no recorded translation serializes an empty
    // section and parses back as absent.
    let entry = entry_with(
        "2026-02-24_090001",
        "Partial",
        "Body",
        vec!["ja", "en"],
        vec![("en", "English only")],
        None,
    );
    let parsed = parse_entry(&serialize_entry(&entry)).unwrap();
    assert!(parsed.translation("ja").is_none());
    assert_eq!(parsed.translation("en").unwrap().as_str(), "English only");
}

#[test]
fn serialize_is_deterministic() {
    let a = entry_with("2026-02-24_090002", "Same", "Text", vec!["ja"], vec![("ja", "T")], None);
    let b = entry_with("2026-02-24_090002", "Same", "Text", vec!["ja"], vec![("ja", "T")], None);
    assert_eq!(serialize_entry(&a), serialize_entry(&b));
}

#[test]
fn serialized_form_is_exact() {
    let entry = entry_with("2026-02-24_090003", "Title", "Orig", vec!["ja"], vec![("ja", "訳")], None);
    let expected = "---\nid: 2026-02-24_090003\ntitle: \"Title\"\ndate: 2026-02-24\nmode: correction\nlanguages: [ja]\ncreated_at: 2026-02-24T14:30:52\n---\n\n# Original\n\nOrig\n\n# ja\n\n訳\n";
    assert_eq!(serialize_entry(&entry), expected);
}

#[test]
fn legacy_correction_label_is_assigned_to_first_language() {
    let content = "---\nid: old_002\ntitle: \"Old\"\ndate: 2026-01-01\nmode: correction\nlanguage: ja\n---\n\n# Original\n\nText\n\n# Correction\n\n直した文\n";
    let parsed = parse_entry(content).unwrap();
    assert_eq!(parsed.translation("ja").unwrap().as_str(), "直した文");
}

#[test]
fn legacy_translation_label_is_assigned_to_first_language() {
    let content = "---\nid: old_003\ntitle: \"Old\"\ndate: 2026-01-01\nmode: translation\nlanguages: [en]\n---\n\n# Original\n\nText\n\n# Translation\n\nTranslated text\n";
    let parsed = parse_entry(content).unwrap();
    assert_eq!(parsed.translation("en").unwrap().as_str(), "Translated text");
}

#[test]
fn parse_entry_without_frontmatter_fails() {
    let r = parse_entry("no fences here");
    assert_eq!(r.unwrap_err(), StorageError::MalformedFrontmatter);
}

#[test]
fn parse_entry_without_closing_fence_fails() {
    // A "---" not preceded by a newline does not close the block.
    let r = parse_entry("---\ntitle: \"a --- b\"");
    assert_eq!(r.unwrap_err(), StorageError::MalformedFrontmatter);
}

#[test]
fn storage_error_messages() {
    assert_eq!(StorageError::InvalidIdentifier.message(), "Invalid id format");
    assert_eq!(StorageError::InvalidDateShape.message(), "Invalid date in id");
    assert_eq!(StorageError::MalformedFrontmatter.message(), "Failed to parse frontmatter");
}

#[test]
fn find_next_heading_requires_newline_anchor() {
    assert_eq!(find_next_heading("text with # mid-line marker"), None);
    assert_eq!(find_next_heading("line\n# next"), Some(5));
}

#[test]
fn path_for_short_id_is_invalid_identifier() {
    let r = path_for("short");
    assert!(matches!(r, Err(StorageError::InvalidIdentifier)));
}

#[test]
fn path_for_bad_date_shape() {
    let r = path_for("2026/02/24_143052");
    assert!(matches!(r, Err(StorageError::InvalidDateShape)));
}

#[test]
fn path_for_splits_year_and_month() {
    let p = path_for("2026-02-24_143052").unwrap();
    assert_eq!(p.year, "2026");
    assert_eq!(p.month, "02");
    assert_eq!(md_file_name("2026-02-24_143052"), "2026-02-24_143052.md");
}

#[test]
fn generate_id_appends_time_to_date() {
    let id = generate_entry_id("1999-12-31");
    assert_eq!(id.len(), 17);
    assert_eq!(&id[..11], "1999-12-31_");
    assert!(id[11..].chars().all(|c| c.is_ascii_digit()));
}

#[test]
fn closing_fence_at_end_of_file() {
    // With no body at all, a final "---" still closes the block.
    let content = "---\nid: t1\ntitle: \"T\"\ndate: 2026-02-24\nmode: correction\nlanguages: [ja]\n---";
    let meta = diary_core::frontmatter::parse_frontmatter(content).unwrap();
    assert_eq!(meta.id, "t1");
    assert_eq!(meta.languages, vec!["ja"]);
}

#[test]
fn dashes_not_after_newline_do_not_close() {
    assert!(diary_core::frontmatter::parse_frontmatter("---\nid: x---").is_none());
}

#[test]
fn interior_unanchored_fence_is_rejected() {
    // "---" followed by more text on the same line closes nothing.
    assert!(diary_core::frontmatter::parse_frontmatter("---\ntitle: \"a\"\n---x\nmore text").is_none());
}

#[test]
fn languages_key_wins_over_legacy_language() {
    let content = "---\nlanguages: [en, fr]\nlanguage: ja\n---\n\nBody";
    let meta = diary_core::frontmatter::parse_frontmatter(content).unwrap();
    assert_eq!(meta.languages, vec!["en", "fr"]);
}

#[test]
fn quoted_language_codes_are_stripped() {
    let content = "---\nlanguages: [\"ja\", \"en\"]\n---\n\nBody";
    let meta = diary_core::frontmatter::parse_frontmatter(content).unwrap();
    assert_eq!(meta.languages, vec!["ja", "en"]);
}

#[test]
fn timestamp_is_rebuilt_from_id() {
    assert_eq!(
        timestamp_from_id("2026-02-24_143052").as_deref(),
        Some("2026-02-24T14:30:52")
    );
    assert_eq!(timestamp_from_id("2026-02-24"), None);
    assert_eq!(timestamp_from_id("2026-02-24_14"), None);
}

#[test]
fn date_dirs_splits_date() {
    let p = date_dirs("2026-02-24").unwrap();
    assert_eq!(p.year, "2026");
    assert_eq!(p.month, "02");
    assert!(matches!(date_dirs("20260224"), Err(StorageError::InvalidDateShape)));
}

fn file(stem: &str, content: &str) -> ScannedFile {
    ScannedFile { stem: stem.to_string(), content: content.to_string() }
}

fn entry_text(id: &str, title: &str, original: &str, translation: &str) -> String {
    let entry = entry_with(id, title, original, vec!["ja"], vec![("ja", translation)], None);
    serialize_entry(&entry)
}

#[test]
fn listing_of_no_files_is_empty() {
    // A nonexistent month directory contributes no files and yields an
    // empty listing, not an error.
    let items = listing_from_files(&vec![]);
    assert!(items.is_empty());
}

#[test]
fn listing_sorts_descending_and_skips_unparsable() {
    let files = vec![
        file("2026-02-01_080000", &entry_text("2026-02-01_080000", "First", "a", "b")),
        file("2026-02-20_080000", &entry_text("2026-02-20_080000", "Last", "c", "d")),
        file("junk", "not an entry at all"),
        file("2026-02-10_080000", &entry_text("2026-02-10_080000", "Middle", "e", "f")),
    ];
    let items = listing_from_files(&files);
    let ids: Vec<&str> = items.iter().map(|i| i.id.as_str()).collect();
    assert_eq!(ids, vec!["2026-02-20_080000", "2026-02-10_080000", "2026-02-01_080000"]);
    assert_eq!(items[0].title, "Last");
}

#[test]
fn listing_backfills_id_from_stem() {
    let content = "---\ntitle: \"No id\"\ndate: 2026-02-24\nmode: correction\nlanguages: [ja]\n---\n\n# Original\n\nx\n";
    let items = listing_from_files(&vec![file("2026-02-24_101010", content)]);
    assert_eq!(items.len(), 1);
    assert_eq!(items[0].id, "2026-02-24_101010");
}

#[test]
fn search_finds_query_in_translation_section() {
    let files = vec![
        file(
            "2026-02-01_080000",
            &entry_text("2026-02-01_080000", "Plain title", "plain original", "uniquetoken here"),
        ),
        file(
            "2026-02-02_080000",
            &entry_text("2026-02-02_080000", "Other", "other original", "nothing special"),
        ),
    ];
    let hits = search_from_files(&files, "uniquetoken");
    assert_eq!(hits.len(), 1);
    assert_eq!(hits[0].id, "2026-02-01_080000");
}

#[test]
fn search_is_case_insensitive() {
    let files = vec![file(
        "2026-02-03_080000",
        &entry_text("2026-02-03_080000", "Weekend Trip", "we hiked", "gita"),
    )];
    let hits = search_from_files(&files, "WEEKEND trip");
    assert_eq!(hits.len(), 1);
    let misses = search_from_files(&files, "weekday");
    assert!(misses.is_empty());
}

#[test]
fn correction_prompt_names_both_languages() {
    let p = correction_prompt("English", "Italiano");
    assert!(p.starts_with("You are a English language teacher."));
    assert!(p.contains("numbered list in Italiano"));
    assert!(p.ends_with("Only modify English portions."));
}

#[test]
fn translation_prompt_names_target_language() {
    let p = translation_prompt("日本語");
    assert!(p.starts_with("Translate the following diary entry into 日本語."));
    assert!(p.contains("Translate ALL text into 日本語."));
    assert!(p.ends_with("Output ONLY the translation, nothing else."));
}

#[test]
fn split_correction_response_with_markers() {
    let raw = "[CORRECTED]\nFixed text here\n[EXPLANATION]\n1. \"a\" was wrong";
    let r = split_correction_response(raw);
    assert_eq!(r.corrected, "Fixed text here");
    assert_eq!(r.explanation.as_deref(), Some("1. \"a\" was wrong"));
}

#[test]
fn split_correction_response_empty_explanation_is_none() {
    let raw = "[CORRECTED]\nFixed\n[EXPLANATION]\n   ";
    let r = split_correction_response(raw);
    assert_eq!(r.corrected, "Fixed");
    assert!(r.explanation.is_none());
}

#[test]
fn split_correction_response_without_markers_takes_whole_reply() {
    let r = split_correction_response("  just the text  ");
    assert_eq!(r.corrected, "just the text");
    assert!(r.explanation.is_none());
}

#[test]
fn default_config_values() {
    let c = AppConfig::default();
    assert_eq!(c.default_language, "ja");
    assert_eq!(c.theme, "warm-light");
    assert_eq!(c.ai_provider, "ollama");
    assert_eq!(c.ollama_model, "gemma2:9b");
    assert_eq!(c.ollama_url, "http://localhost:11434");
    assert!(c.api_key.is_empty());
    assert!(c.global_date_format.is_none());
    let langs = default_languages();
    assert_eq!(langs.len(), 3);
    assert_eq!(langs[0].code, "ja");
    assert_eq!(langs[1].name, "English");
    assert_eq!(langs[2].date_format, "DD/MM/YYYY (ddd)");
}

#[test]
fn language_display_name_falls_back_to_code() {
    let langs = default_languages();
    assert_eq!(language_display_name(&langs, "ja"), "日本語");
    assert_eq!(language_display_name(&langs, "fr"), "fr");
}
