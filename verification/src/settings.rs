//! Application settings: the languages offered, the storage root, and the
//! assistant provider, with their defaults.  Reading and writing the
//! settings file is the caller's concern; this module owns the values.

use vstd::prelude::*;
use vstd::string::*;

verus! {

use crate::text::str_eq;

/// One offered language: its code, display name, and date display format.
#[derive(Debug, Clone)]
pub struct LanguageConfig {
    pub code: String,
    pub name: String,
    pub date_format: String,
}

/// The application settings.
///
/// `entries_dir` is the storage root; the platform-dependent default is
/// resolved by the caller, so [`AppConfig::default`] leaves it empty.
#[derive(Debug, Clone)]
pub struct AppConfig {
    pub api_key: String,
    pub default_language: String,
    pub theme: String,
    pub languages: Vec<LanguageConfig>,
    pub entries_dir: String,
    pub global_date_format: Option<String>,
    pub ai_provider: String,
    pub ollama_model: String,
    pub ollama_url: String,
}

/// The default display language code.
pub fn default_language() -> (r: String)
    ensures
        r@ == "ja"@,
{
    String::from_str("ja")
}

/// The default color theme.
pub fn default_theme() -> (r: String)
    ensures
        r@ == "warm-light"@,
{
    String::from_str("warm-light")
}

/// The default assistant provider.
pub fn default_ai_provider() -> (r: String)
    ensures
        r@ == "ollama"@,
{
    String::from_str("ollama")
}

/// The default local model name.
pub fn default_ollama_model() -> (r: String)
    ensures
        r@ == "gemma2:9b"@,
{
    String::from_str("gemma2:9b")
}

/// The default local model endpoint.
pub fn default_ollama_url() -> (r: String)
    ensures
        r@ == "http://localhost:11434"@,
{
    String::from_str("http://localhost:11434")
}

/// The three languages offered out of the box.
pub fn default_languages() -> (r: Vec<LanguageConfig>)
    ensures
        r@.len() == 3,
        r@[0].code@ == "ja"@ && r@[0].name@ == "日本語"@ && r@[0].date_format@
            == "YYYY年MM月DD日（ddd）"@,
        r@[1].code@ == "en"@ && r@[1].name@ == "English"@ && r@[1].date_format@
            == "MMM DD, YYYY (ddd)"@,
        r@[2].code@ == "it"@ && r@[2].name@ == "Italiano"@ && r@[2].date_format@
            == "DD/MM/YYYY (ddd)"@,
{
    let mut r: Vec<LanguageConfig> = Vec::new();
    r.push(
        LanguageConfig {
            code: String::from_str("ja"),
            name: String::from_str("日本語"),
            date_format: String::from_str("YYYY年MM月DD日（ddd）"),
        },
    );
    r.push(
        LanguageConfig {
            code: String::from_str("en"),
            name: String::from_str("English"),
            date_format: String::from_str("MMM DD, YYYY (ddd)"),
        },
    );
    r.push(
        LanguageConfig {
            code: String::from_str("it"),
            name: String::from_str("Italiano"),
            date_format: String::from_str("DD/MM/YYYY (ddd)"),
        },
    );
    r
}

impl Default for AppConfig {
    /// The default settings; `entries_dir` stays empty for the caller to
    /// resolve against the platform's document directory.
    fn default() -> (r: AppConfig)
        ensures
            r.api_key@.len() == 0,
            r.default_language@ == "ja"@,
            r.theme@ == "warm-light"@,
            r.languages@.len() == 3,
            r.entries_dir@.len() == 0,
            r.global_date_format is None,
            r.ai_provider@ == "ollama"@,
            r.ollama_model@ == "gemma2:9b"@,
            r.ollama_url@ == "http://localhost:11434"@,
    {
        AppConfig {
            api_key: String::new(),
            default_language: default_language(),
            theme: default_theme(),
            languages: default_languages(),
            entries_dir: String::new(),
            global_date_format: None,
            ai_provider: default_ai_provider(),
            ollama_model: default_ollama_model(),
            ollama_url: default_ollama_url(),
        }
    }
}

/// The index of the first offered language with the given code.
pub open spec fn spec_lang_index(languages: Seq<LanguageConfig>, code: Seq<char>) -> Option<int>
    decreases languages.len(),
{
    if languages.len() == 0 {
        None
    } else if languages[0].code@ == code {
        Some(0)
    } else {
        match spec_lang_index(languages.drop_first(), code) {
            None => None,
            Some(i) => Some(i + 1),
        }
    }
}

/// A found index is in range and names the matching language.
pub proof fn lemma_lang_index_bounds(languages: Seq<LanguageConfig>, code: Seq<char>)
    ensures
        match spec_lang_index(languages, code) {
            Some(i) => 0 <= i < languages.len() && languages[i].code@ == code,
            None => true,
        },
    decreases languages.len(),
{
    if languages.len() > 0 {
        lemma_lang_index_bounds(languages.drop_first(), code);
    }
}

fn lang_name_from(languages: &Vec<LanguageConfig>, from: usize, code: &str) -> (r: Option<String>)
    requires
        from <= languages@.len(),
    ensures
        match spec_lang_index(languages@.skip(from as int), code@) {
            None => r is None,
            Some(i) => r matches Some(s) && s@ == languages@.skip(from as int)[i].name@,
        },
    decreases languages@.len() - from,
{
    if from == languages.len() {
        assert(languages@.skip(from as int).len() == 0);
        return None;
    }
    proof {
        assert(languages@.skip(from as int)[0] == languages@[from as int]);
        assert(languages@.skip(from as int).drop_first() =~= languages@.skip(from as int + 1));
    }
    if str_eq(languages[from].code.as_str(), code) {
        let name = languages[from].name.clone();
        proof {
            assert(spec_lang_index(languages@.skip(from as int), code@) == Some(0int));
            assert(name@ == languages@.skip(from as int)[0].name@);
        }
        Some(name)
    } else {
        let r = lang_name_from(languages, from + 1, code);
        proof {
            let tail = languages@.skip(from as int + 1);
            let whole = languages@.skip(from as int);
            lemma_lang_index_bounds(tail, code@);
            match spec_lang_index(tail, code@) {
                None => {
                    assert(spec_lang_index(whole, code@) is None);
                },
                Some(i) => {
                    assert(spec_lang_index(whole, code@) == Some(i + 1));
                    assert(whole.drop_first() == tail);
                    assert(whole[i + 1] == tail[i]);
                },
            }
        }
        r
    }
}

/// The display name of the language with the given code, or the code
/// itself when it is not among the offered languages.
pub fn language_display_name(languages: &Vec<LanguageConfig>, code: &str) -> (r: String)
    ensures
        match spec_lang_index(languages@, code@) {
            None => r@ == code@,
            Some(i) => r@ == languages@[i].name@,
        },
{
    proof {
        assert(languages@.skip(0) == languages@);
    }
    match lang_name_from(languages, 0, code) {
        Some(name) => name,
        None => code.to_owned(),
    }
}

} // verus!
