//! Prompt builders for the text-rewriting assistant, and the decoder for
//! its marker-structured reply.  The remote call itself is not made here;
//! these functions compute the exact strings sent and decode the exact
//! string received.

use vstd::prelude::*;
use vstd::string::*;

verus! {

use crate::meta::view_opt;
use crate::text::{find_sub, first_at, lemma_first_at_is, lemma_first_at_none, spec_trim, trim_str};

/// The system prompt asking for a correction of the text's portions in
/// the given language, with explanations in the other given language.
pub open spec fn spec_correction_prompt(language: Seq<char>, explanation: Seq<char>) -> Seq<char> {
    "You are a "@ + language
        + " language teacher. The student wrote a diary that may contain text in multiple languages.\nCORRECT only the "@
        + language
        + " portions. Do NOT translate to another language.\n\nRules:\n- Fix grammar, unnatural expressions, and word choice in "@
        + language
        + " text only.\n- Preserve ALL text in other languages exactly as-is (do not remove or modify it).\n- Keep the student's writing style and tone.\n- Keep line breaks, emoji, and image references unchanged.\n- If the "@
        + language
        + " text is already perfect, return everything unchanged.\n\nFormat your response EXACTLY like this:\n[CORRECTED]\n(the COMPLETE text with "@
        + language + " portions corrected — preserve non-"@ + language
        + " text unchanged)\n[EXPLANATION]\n(numbered list in "@ + explanation
        + ": \"original\" → \"corrected\" — reason.\nIf no corrections needed, write: No corrections needed.)\n\nIMPORTANT: Return the COMPLETE input text. Only modify "@
        + language + " portions."@
}

/// The system prompt asking for a translation into the given language.
pub open spec fn spec_translation_prompt(language: Seq<char>) -> Seq<char> {
    "Translate the following diary entry into "@ + language
        + ".\n\nRules:\n- Translate ALL text into "@ + language
        + ".\n- If text is already in "@ + language
        + ", keep it as-is.\n- Remove section headers (like \"English Ver.\", \"中文字版本\").\n- Preserve emoji and image references (![...](path)).\n- Return ONLY the translated text.\n\nIMPORTANT: Do NOT add any new sentences. Do NOT invent content. Output ONLY the translation, nothing else."@
}

/// Builds the correction system prompt for a language and the language
/// explanations should be written in.
pub fn correction_prompt(language: &str, explanation_language: &str) -> (r: String)
    ensures
        r@ == spec_correction_prompt(language@, explanation_language@),
{
    let mut out = String::new();
    out.append("You are a ");
    out.append(language);
    out.append(
        " language teacher. The student wrote a diary that may contain text in multiple languages.\nCORRECT only the ",
    );
    out.append(language);
    out.append(
        " portions. Do NOT translate to another language.\n\nRules:\n- Fix grammar, unnatural expressions, and word choice in ",
    );
    out.append(language);
    out.append(
        " text only.\n- Preserve ALL text in other languages exactly as-is (do not remove or modify it).\n- Keep the student's writing style and tone.\n- Keep line breaks, emoji, and image references unchanged.\n- If the ",
    );
    out.append(language);
    out.append(
        " text is already perfect, return everything unchanged.\n\nFormat your response EXACTLY like this:\n[CORRECTED]\n(the COMPLETE text with ",
    );
    out.append(language);
    out.append(" portions corrected — preserve non-");
    out.append(language);
    out.append(" text unchanged)\n[EXPLANATION]\n(numbered list in ");
    out.append(explanation_language);
    out.append(
        ": \"original\" → \"corrected\" — reason.\nIf no corrections needed, write: No corrections needed.)\n\nIMPORTANT: Return the COMPLETE input text. Only modify ",
    );
    out.append(language);
    out.append(" portions.");
    out
}

/// Builds the translation system prompt for a target language.
pub fn translation_prompt(target_language: &str) -> (r: String)
    ensures
        r@ == spec_translation_prompt(target_language@),
{
    let mut out = String::new();
    out.append("Translate the following diary entry into ");
    out.append(target_language);
    out.append(".\n\nRules:\n- Translate ALL text into ");
    out.append(target_language);
    out.append(".\n- If text is already in ");
    out.append(target_language);
    out.append(
        ", keep it as-is.\n- Remove section headers (like \"English Ver.\", \"中文字版本\").\n- Preserve emoji and image references (![...](path)).\n- Return ONLY the translated text.\n\nIMPORTANT: Do NOT add any new sentences. Do NOT invent content. Output ONLY the translation, nothing else.",
    );
    out
}

/// A corrected text and, when given, the assistant's explanations.
pub struct CorrectionResult {
    pub corrected: String,
    pub explanation: Option<String>,
}

pub open spec fn marker_corrected() -> Seq<char> {
    seq!['[', 'C', 'O', 'R', 'R', 'E', 'C', 'T', 'E', 'D', ']']
}

pub open spec fn marker_explanation() -> Seq<char> {
    seq!['[', 'E', 'X', 'P', 'L', 'A', 'N', 'A', 'T', 'I', 'O', 'N', ']']
}

/// The corrected text in a raw assistant reply: the span between the
/// first `[CORRECTED]` marker and the first following `[EXPLANATION]`
/// marker (or the end), trimmed; a reply without markers is taken whole,
/// for replies from before the markers existed.
pub open spec fn spec_corrected_of(raw: Seq<char>) -> Seq<char> {
    match first_at(raw, marker_corrected()) {
        None => spec_trim(raw),
        Some(cs) => {
            let after = raw.skip(cs + marker_corrected().len());
            match first_at(after, marker_explanation()) {
                None => spec_trim(after),
                Some(es) => spec_trim(after.take(es)),
            }
        },
    }
}

/// The explanation in a raw assistant reply: the trimmed text after the
/// `[EXPLANATION]` marker, when both markers are present and that text is
/// non-empty.
pub open spec fn spec_explanation_of(raw: Seq<char>) -> Option<Seq<char>> {
    match first_at(raw, marker_corrected()) {
        None => None,
        Some(cs) => {
            let after = raw.skip(cs + marker_corrected().len());
            match first_at(after, marker_explanation()) {
                None => None,
                Some(es) => {
                    let expl = spec_trim(after.skip(es + marker_explanation().len()));
                    if expl.len() == 0 {
                        None
                    } else {
                        Some(expl)
                    }
                },
            }
        },
    }
}

/// Splits a raw assistant reply into the corrected text and the optional
/// explanation.
pub fn split_correction_response(raw: &str) -> (r: CorrectionResult)
    ensures
        r.corrected@ == spec_corrected_of(raw@),
        view_opt(r.explanation) == spec_explanation_of(raw@),
{
    let found = find_sub(raw, "[CORRECTED]");
    proof {
        reveal_strlit("[CORRECTED]");
        assert("[CORRECTED]"@ =~= marker_corrected());
        match found {
            Some(i) => {
                lemma_first_at_is(raw@, marker_corrected(), i as int);
            },
            None => {
                lemma_first_at_none(raw@, marker_corrected());
            },
        }
    }
    let cs = match found {
        None => {
            return CorrectionResult { corrected: trim_str(raw).to_owned(), explanation: None };
        },
        Some(cs) => cs,
    };
    let n = raw.unicode_len();
    let after = raw.substring_char(cs + 11, n);
    proof {
        assert(after@ == raw@.skip(cs + 11));
    }
    let found2 = find_sub(after, "[EXPLANATION]");
    proof {
        reveal_strlit("[EXPLANATION]");
        assert("[EXPLANATION]"@ =~= marker_explanation());
        match found2 {
            Some(i) => {
                lemma_first_at_is(after@, marker_explanation(), i as int);
            },
            None => {
                lemma_first_at_none(after@, marker_explanation());
            },
        }
    }
    let es = match found2 {
        None => {
            return CorrectionResult { corrected: trim_str(after).to_owned(), explanation: None };
        },
        Some(es) => es,
    };
    let an = after.unicode_len();
    let corrected_span = after.substring_char(0, es);
    let expl_span = after.substring_char(es + 13, an);
    proof {
        assert(corrected_span@ == after@.take(es as int));
        assert(expl_span@ == after@.skip(es + 13));
    }
    let corrected = trim_str(corrected_span).to_owned();
    let expl = trim_str(expl_span).to_owned();
    if expl.as_str().unicode_len() == 0 {
        CorrectionResult { corrected, explanation: None }
    } else {
        CorrectionResult { corrected, explanation: Some(expl) }
    }
}

} // verus!
