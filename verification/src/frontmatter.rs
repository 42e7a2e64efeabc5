//! The frontmatter codec: the fenced key-value metadata block at the top of
//! an entry file.
//!
//! A block opens with a `---` line and closes with the first later `---`
//! that begins a line (it must be preceded by a newline, so a `---` inside
//! a quoted value never closes the block).  Each line holds `key: value`;
//! the value is everything after the first colon, so values may themselves
//! contain colons.  Titles are double-quoted with `\"` and `\\` escapes.
//! Historical variants accepted on read: a singular `language:` key lifted
//! into a one-element language list, unquoted titles, and a missing `id`.

use vstd::prelude::*;
use vstd::string::*;

verus! {

use crate::meta::{EntryMeta, MetaView};
use crate::text::{
    contains_seq,
    drop_leading_char,
    drop_trailing_char,
    find_sub,
    first_at,
    is_at,
    is_prefix,
    lemma_find_from_props,
    lemma_first_at_is,
    lemma_first_at_none,
    lemma_split_char_first,
    push_char,
    spec_trim,
    split_char,
    str_eq,
    strip_leading_char,
    strip_trailing_char,
    trim_str,
};

pub open spec fn dashes() -> Seq<char> {
    seq!['-', '-', '-']
}

pub open spec fn nl_dashes() -> Seq<char> {
    seq!['\n', '-', '-', '-']
}

pub open spec fn nl_dashes_nl() -> Seq<char> {
    seq!['\n', '-', '-', '-', '\n']
}

pub open spec fn colon_sp() -> Seq<char> {
    seq![':', ' ']
}

pub open spec fn key_id() -> Seq<char> {
    seq!['i', 'd']
}

pub open spec fn key_title() -> Seq<char> {
    seq!['t', 'i', 't', 'l', 'e']
}

pub open spec fn key_date() -> Seq<char> {
    seq!['d', 'a', 't', 'e']
}

pub open spec fn key_mode() -> Seq<char> {
    seq!['m', 'o', 'd', 'e']
}

pub open spec fn key_languages() -> Seq<char> {
    seq!['l', 'a', 'n', 'g', 'u', 'a', 'g', 'e', 's']
}

pub open spec fn key_language() -> Seq<char> {
    seq!['l', 'a', 'n', 'g', 'u', 'a', 'g', 'e']
}

pub open spec fn key_date_format() -> Seq<char> {
    seq!['d', 'a', 't', 'e', '_', 'f', 'o', 'r', 'm', 'a', 't']
}

pub open spec fn key_created_at() -> Seq<char> {
    seq!['c', 'r', 'e', 'a', 't', 'e', 'd', '_', 'a', 't']
}

pub open spec fn key_updated_at() -> Seq<char> {
    seq!['u', 'p', 'd', 'a', 't', 'e', 'd', '_', 'a', 't']
}

/// `s` with backslashes and double quotes escaped, ready for quoting.
pub open spec fn escape_str(s: Seq<char>) -> Seq<char>
    decreases s.len(),
{
    if s.len() == 0 {
        s
    } else {
        (if s[0] == '\\' {
            seq!['\\', '\\']
        } else if s[0] == '"' {
            seq!['\\', '"']
        } else {
            seq![s[0]]
        }) + escape_str(s.skip(1))
    }
}

/// One forward pass undoing [`escape_str`]: `\"` becomes `"`, `\\` becomes
/// `\`, and every other character stands for itself.
pub open spec fn unescape_str(s: Seq<char>) -> Seq<char>
    decreases s.len(),
{
    if s.len() == 0 {
        s
    } else if s.len() >= 2 && s[0] == '\\' && (s[1] == '"' || s[1] == '\\') {
        seq![s[1]] + unescape_str(s.skip(2))
    } else {
        seq![s[0]] + unescape_str(s.skip(1))
    }
}

/// Quote stripping applied to every parsed value: one surrounding pair of
/// double quotes is removed when both are present; otherwise all boundary
/// quotes are dropped.
pub open spec fn unquote(v: Seq<char>) -> Seq<char> {
    if v.len() >= 2 && v[0] == '"' && v[v.len() - 1] == '"' {
        v.subrange(1, v.len() - 1)
    } else {
        drop_trailing_char(drop_leading_char(v, '"'), '"')
    }
}

/// A language code as cleaned from one comma-separated piece.
pub open spec fn clean_code(p: Seq<char>) -> Seq<char> {
    drop_trailing_char(drop_leading_char(spec_trim(p), '"'), '"')
}

/// The non-empty cleaned codes of the comma-separated pieces, in order.
pub open spec fn collect_codes(pieces: Seq<Seq<char>>) -> Seq<Seq<char>>
    decreases pieces.len(),
{
    if pieces.len() == 0 {
        Seq::empty()
    } else {
        let c = clean_code(pieces[0]);
        (if c.len() > 0 {
            seq![c]
        } else {
            Seq::empty()
        }) + collect_codes(pieces.drop_first())
    }
}

/// The language list denoted by a bracketed value such as `[ja, en]`.
pub open spec fn parse_lang_list(v: Seq<char>) -> Seq<Seq<char>> {
    let inner = drop_trailing_char(drop_leading_char(spec_trim(v), '['), ']');
    collect_codes(split_char(inner, ','))
}

/// Intermediate state of the line-by-line frontmatter decoder.
#[verifier::ext_equal]
pub ghost struct FmAcc {
    pub id: Seq<char>,
    pub title: Seq<char>,
    pub date: Seq<char>,
    pub mode: Seq<char>,
    pub languages: Seq<Seq<char>>,
    pub language: Seq<char>,
    pub date_format: Option<Seq<char>>,
    pub created_at: Option<Seq<char>>,
    pub updated_at: Option<Seq<char>>,
}

pub open spec fn init_acc() -> FmAcc {
    FmAcc {
        id: Seq::empty(),
        title: Seq::empty(),
        date: Seq::empty(),
        mode: Seq::empty(),
        languages: Seq::empty(),
        language: Seq::empty(),
        date_format: None,
        created_at: None,
        updated_at: None,
    }
}

/// The key and cleaned value of one frontmatter line, if it has a colon.
pub open spec fn line_key_value(line: Seq<char>) -> Option<(Seq<char>, Seq<char>)> {
    let l = spec_trim(line);
    match first_at(l, seq![':']) {
        None => None,
        Some(i) => Some((spec_trim(l.take(i)), unquote(spec_trim(l.skip(i + 1))))),
    }
}

/// The effect of one frontmatter line on the decoder state.
pub open spec fn apply_line(acc: FmAcc, line: Seq<char>) -> FmAcc {
    match line_key_value(line) {
        None => acc,
        Some((k, v)) => if k == key_id() {
            FmAcc { id: v, ..acc }
        } else if k == key_title() {
            FmAcc { title: unescape_str(v), ..acc }
        } else if k == key_date() {
            FmAcc { date: v, ..acc }
        } else if k == key_mode() {
            FmAcc { mode: v, ..acc }
        } else if k == key_languages() {
            FmAcc { languages: parse_lang_list(v), ..acc }
        } else if k == key_language() {
            FmAcc { language: v, ..acc }
        } else if k == key_date_format() {
            FmAcc { date_format: Some(v), ..acc }
        } else if k == key_created_at() {
            FmAcc { created_at: Some(v), ..acc }
        } else if k == key_updated_at() {
            FmAcc { updated_at: Some(v), ..acc }
        } else {
            acc
        },
    }
}

pub open spec fn fold_lines(acc: FmAcc, lines: Seq<Seq<char>>) -> FmAcc
    decreases lines.len(),
{
    if lines.len() == 0 {
        acc
    } else {
        fold_lines(apply_line(acc, lines[0]), lines.drop_first())
    }
}

/// The final metadata record: a singular legacy `language` key is lifted
/// into a one-element list when no `languages` list was given.
pub open spec fn finish_acc(acc: FmAcc) -> MetaView {
    MetaView {
        id: acc.id,
        date: acc.date,
        title: acc.title,
        mode: acc.mode,
        languages: if acc.languages.len() == 0 && acc.language.len() > 0 {
            seq![acc.language]
        } else {
            acc.languages
        },
        date_format: acc.date_format,
        created_at: acc.created_at,
        updated_at: acc.updated_at,
    }
}

/// Where the frontmatter's closing fence starts in the text after the
/// opening `---`: the first newline-anchored `---` that is either followed
/// by a newline or ends the text.
pub open spec fn fence_end(rest: Seq<char>) -> Option<int> {
    match first_at(rest, nl_dashes_nl()) {
        Some(i) => Some(i),
        None => match first_at(rest, nl_dashes()) {
            Some(i) => if i + 4 >= rest.len() {
                Some(i)
            } else {
                None
            },
            None => None,
        },
    }
}

/// What [`parse_frontmatter`] decodes: `None` when the opening fence or a
/// newline-anchored closing fence is missing, otherwise the fold of the
/// fenced lines.
pub open spec fn spec_parse_frontmatter(s: Seq<char>) -> Option<MetaView> {
    if !is_prefix(s, dashes()) {
        None
    } else {
        let rest = s.skip(3);
        match fence_end(rest) {
            None => None,
            Some(end) => Some(
                finish_acc(fold_lines(init_acc(), split_char(spec_trim(rest.take(end)), '\n'))),
            ),
        }
    }
}

/// Escapes backslashes and double quotes in a title.
pub fn escape_title(t: &str) -> (r: String)
    ensures
        r@ == escape_str(t@),
    decreases t@.len(),
{
    let n = t.unicode_len();
    let mut out = String::new();
    if n == 0 {
        assert(out@ =~= escape_str(t@));
        return out;
    }
    let c = t.get_char(0);
    let tail = escape_title(t.substring_char(1, n));
    if c == '\\' {
        push_char(&mut out, '\\');
        push_char(&mut out, '\\');
        assert(out@ =~= seq!['\\', '\\']);
    } else if c == '"' {
        push_char(&mut out, '\\');
        push_char(&mut out, '"');
        assert(out@ =~= seq!['\\', '"']);
    } else {
        push_char(&mut out, c);
        assert(out@ =~= seq![c]);
    }
    out.append(tail.as_str());
    proof {
        assert(t@.subrange(1, n as int) == t@.skip(1));
    }
    out
}

/// Undoes [`escape_title`] in one forward pass.
pub fn unescape_title(v: &str) -> (r: String)
    ensures
        r@ == unescape_str(v@),
    decreases v@.len(),
{
    let n = v.unicode_len();
    let mut out = String::new();
    if n == 0 {
        assert(out@ =~= unescape_str(v@));
        return out;
    }
    let c = v.get_char(0);
    if n >= 2 && c == '\\' {
        let d = v.get_char(1);
        if d == '"' || d == '\\' {
            let tail = unescape_title(v.substring_char(2, n));
            push_char(&mut out, d);
            out.append(tail.as_str());
            proof {
                assert(v@.subrange(2, n as int) == v@.skip(2));
                assert(out@ =~= seq![v@[1]] + unescape_str(v@.skip(2)));
            }
            return out;
        }
        let tail = unescape_title(v.substring_char(1, n));
        push_char(&mut out, c);
        out.append(tail.as_str());
        proof {
            assert(v@.subrange(1, n as int) == v@.skip(1));
            assert(out@ =~= seq![v@[0]] + unescape_str(v@.skip(1)));
        }
        return out;
    }
    let tail = unescape_title(v.substring_char(1, n));
    push_char(&mut out, c);
    out.append(tail.as_str());
    proof {
        assert(v@.subrange(1, n as int) == v@.skip(1));
        assert(out@ =~= seq![v@[0]] + unescape_str(v@.skip(1)));
    }
    out
}

/// Strips quotes from a parsed value as [`unquote`] describes.
fn unquote_str<'a>(v: &'a str) -> (r: &'a str)
    ensures
        r@ == unquote(v@),
{
    let n = v.unicode_len();
    if n >= 2 && v.get_char(0) == '"' && v.get_char(n - 1) == '"' {
        v.substring_char(1, n - 1)
    } else {
        strip_trailing_char(strip_leading_char(v, '"'), '"')
    }
}

/// Appends the cleaned non-empty codes of a comma-separated list.
fn push_codes(s: &str, out: &mut Vec<String>)
    ensures
        final(out).deep_view() == old(out).deep_view() + collect_codes(split_char(s@, ',')),
    decreases s@.len(),
{
    proof {
        lemma_split_char_first(s@, ',');
    }
    let comma = find_sub(s, ",");
    proof {
        reveal_strlit(",");
        assert(","@ =~= seq![',']);
        match comma {
            Some(i) => {
                lemma_first_at_is(s@, seq![','], i as int);
            },
            None => {
                lemma_first_at_none(s@, seq![',']);
            },
        }
    }
    match comma {
        None => {
            let code = strip_trailing_char(strip_leading_char(trim_str(s), '"'), '"');
            proof {
                assert(split_char(s@, ',') == seq![s@]);
                assert(split_char(s@, ',').drop_first() =~= Seq::<Seq<char>>::empty());
                assert(collect_codes(Seq::<Seq<char>>::empty()) =~= Seq::<Seq<char>>::empty());
            }
            if code.unicode_len() > 0 {
                out.push(code.to_owned());
                proof {
                    assert(out.deep_view() =~= old(out).deep_view() + seq![clean_code(s@)]);
                    assert(collect_codes(split_char(s@, ',')) =~= seq![clean_code(s@)]);
                }
            } else {
                proof {
                    assert(collect_codes(split_char(s@, ',')) =~= Seq::<Seq<char>>::empty());
                    assert(out.deep_view() =~= old(out).deep_view() + Seq::<Seq<char>>::empty());
                }
            }
        },
        Some(i) => {
            let n = s.unicode_len();
            let piece = s.substring_char(0, i);
            let rest = s.substring_char(i + 1, n);
            proof {
                assert(piece@ == s@.take(i as int));
                assert(rest@ == s@.skip(i as int + 1));
                assert(split_char(s@, ',') == seq![s@.take(i as int)] + split_char(
                    s@.skip(i as int + 1),
                    ',',
                ));
                assert(split_char(s@, ',')[0] == s@.take(i as int));
                assert(split_char(s@, ',').drop_first() =~= split_char(s@.skip(i as int + 1), ','));
            }
            let code = strip_trailing_char(strip_leading_char(trim_str(piece), '"'), '"');
            let ghost mid: Seq<Seq<char>>;
            if code.unicode_len() > 0 {
                out.push(code.to_owned());
                proof {
                    mid = old(out).deep_view() + seq![clean_code(piece@)];
                    assert(out.deep_view() =~= mid);
                }
            } else {
                proof {
                    mid = old(out).deep_view();
                }
            }
            push_codes(rest, out);
            proof {
                let c = clean_code(s@.take(i as int));
                if c.len() > 0 {
                    assert(collect_codes(split_char(s@, ',')) =~= seq![c] + collect_codes(
                        split_char(s@.skip(i as int + 1), ','),
                    ));
                } else {
                    assert(collect_codes(split_char(s@, ',')) =~= collect_codes(
                        split_char(s@.skip(i as int + 1), ','),
                    ));
                }
                assert(out.deep_view() =~= old(out).deep_view() + collect_codes(
                    split_char(s@, ','),
                ));
            }
        },
    }
}

/// Parses a bracketed language list value.
fn parse_langs(v: &str) -> (r: Vec<String>)
    ensures
        r.deep_view() == parse_lang_list(v@),
{
    let inner = strip_trailing_char(strip_leading_char(trim_str(v), '['), ']');
    let mut out: Vec<String> = Vec::new();
    push_codes(inner, &mut out);
    proof {
        assert(out.deep_view() =~= parse_lang_list(v@));
    }
    out
}

/// Executable twin of [`FmAcc`].
struct FmState {
    pub id: String,
    pub title: String,
    pub date: String,
    pub mode: String,
    pub languages: Vec<String>,
    pub language: String,
    pub date_format: Option<String>,
    pub created_at: Option<String>,
    pub updated_at: Option<String>,
}

impl View for FmState {
    type V = FmAcc;

    closed spec fn view(&self) -> FmAcc {
        FmAcc {
            id: self.id@,
            title: self.title@,
            date: self.date@,
            mode: self.mode@,
            languages: self.languages.deep_view(),
            language: self.language@,
            date_format: crate::meta::view_opt(self.date_format),
            created_at: crate::meta::view_opt(self.created_at),
            updated_at: crate::meta::view_opt(self.updated_at),
        }
    }
}

fn init_state() -> (r: FmState)
    ensures
        r@ == init_acc(),
{
    let r = FmState {
        id: String::new(),
        title: String::new(),
        date: String::new(),
        mode: String::new(),
        languages: Vec::new(),
        language: String::new(),
        date_format: None,
        created_at: None,
        updated_at: None,
    };
    proof {
        assert(r.languages.deep_view() =~= Seq::<Seq<char>>::empty());
        assert(r@ =~= init_acc());
    }
    r
}

/// Applies one frontmatter line to the decoder state.
fn fm_apply_line(state: &mut FmState, line: &str)
    ensures
        final(state)@ == apply_line(old(state)@, line@),
{
    let l = trim_str(line);
    let colon = find_sub(l, ":");
    proof {
        reveal_strlit(":");
        assert(":"@ =~= seq![':']);
        match colon {
            Some(i) => {
                lemma_first_at_is(l@, seq![':'], i as int);
            },
            None => {
                lemma_first_at_none(l@, seq![':']);
            },
        }
    }
    let i = match colon {
        None => {
            return ;
        },
        Some(i) => i,
    };
    let ln = l.unicode_len();
    let key = trim_str(l.substring_char(0, i));
    let rawv = trim_str(l.substring_char(i + 1, ln));
    let v = unquote_str(rawv);
    proof {
        assert(l@.subrange(0, i as int) == l@.take(i as int));
        assert(l@.subrange(i as int + 1, ln as int) == l@.skip(i as int + 1));
        assert(line_key_value(line@) == Some((key@, v@)));
        reveal_strlit("id");
        reveal_strlit("title");
        reveal_strlit("date");
        reveal_strlit("mode");
        reveal_strlit("languages");
        reveal_strlit("language");
        reveal_strlit("date_format");
        reveal_strlit("created_at");
        reveal_strlit("updated_at");
        assert("id"@ =~= key_id());
        assert("title"@ =~= key_title());
        assert("date"@ =~= key_date());
        assert("mode"@ =~= key_mode());
        assert("languages"@ =~= key_languages());
        assert("language"@ =~= key_language());
        assert("date_format"@ =~= key_date_format());
        assert("created_at"@ =~= key_created_at());
        assert("updated_at"@ =~= key_updated_at());
    }
    if str_eq(key, "id") {
        state.id = v.to_owned();
        assert(state@ =~= apply_line(old(state)@, line@));
    } else if str_eq(key, "title") {
        state.title = unescape_title(v);
        assert(state@ =~= apply_line(old(state)@, line@));
    } else if str_eq(key, "date") {
        state.date = v.to_owned();
        assert(state@ =~= apply_line(old(state)@, line@));
    } else if str_eq(key, "mode") {
        state.mode = v.to_owned();
        assert(state@ =~= apply_line(old(state)@, line@));
    } else if str_eq(key, "languages") {
        state.languages = parse_langs(v);
        assert(state@ =~= apply_line(old(state)@, line@));
    } else if str_eq(key, "language") {
        state.language = v.to_owned();
        assert(state@ =~= apply_line(old(state)@, line@));
    } else if str_eq(key, "date_format") {
        state.date_format = Some(v.to_owned());
        assert(state@ =~= apply_line(old(state)@, line@));
    } else if str_eq(key, "created_at") {
        state.created_at = Some(v.to_owned());
        assert(state@ =~= apply_line(old(state)@, line@));
    } else if str_eq(key, "updated_at") {
        state.updated_at = Some(v.to_owned());
        assert(state@ =~= apply_line(old(state)@, line@));
    } else {
        assert(state@ =~= apply_line(old(state)@, line@));
    }
}

/// Applies every line of the fenced block, in order.
fn fm_apply_lines(state: &mut FmState, s: &str)
    ensures
        final(state)@ == fold_lines(old(state)@, split_char(s@, '\n')),
    decreases s@.len(),
{
    proof {
        lemma_split_char_first(s@, '\n');
    }
    let nl = find_sub(s, "\n");
    proof {
        reveal_strlit("\n");
        assert("\n"@ =~= seq!['\n']);
        match nl {
            Some(i) => {
                lemma_first_at_is(s@, seq!['\n'], i as int);
            },
            None => {
                lemma_first_at_none(s@, seq!['\n']);
            },
        }
    }
    match nl {
        None => {
            fm_apply_line(state, s);
            proof {
                let lines = split_char(s@, '\n');
                assert(lines == seq![s@]);
                assert(lines[0] == s@);
                assert(lines.drop_first() =~= Seq::<Seq<char>>::empty());
                assert(fold_lines(state@, Seq::<Seq<char>>::empty()) == state@);
                assert(fold_lines(old(state)@, lines) == fold_lines(
                    apply_line(old(state)@, s@),
                    lines.drop_first(),
                ));
                assert(fold_lines(old(state)@, lines) == state@);
            }
        },
        Some(i) => {
            let n = s.unicode_len();
            let line = s.substring_char(0, i);
            let rest = s.substring_char(i + 1, n);
            proof {
                assert(line@ == s@.take(i as int));
                assert(rest@ == s@.skip(i as int + 1));
            }
            fm_apply_line(state, line);
            let ghost mid = state@;
            fm_apply_lines(state, rest);
            proof {
                let lines = split_char(s@, '\n');
                assert(lines == seq![s@.take(i as int)] + split_char(s@.skip(i as int + 1), '\n'));
                assert(lines[0] == s@.take(i as int));
                assert(mid == apply_line(old(state)@, lines[0]));
                assert(lines.drop_first() =~= split_char(rest@, '\n'));
                assert(state@ == fold_lines(mid, split_char(rest@, '\n')));
                assert(fold_lines(old(state)@, lines) == fold_lines(mid, lines.drop_first()));
                assert(fold_lines(old(state)@, lines) == state@);
            }
        },
    }
}

/// Finds the closing fence in the text after the opening `---`.
pub(crate) fn find_fence(rest: &str) -> (r: Option<usize>)
    ensures
        match r {
            Some(i) => fence_end(rest@) == Some(i as int) && i + 4 <= rest@.len(),
            None => fence_end(rest@) is None,
        },
{
    let n = rest.unicode_len();
    let five = find_sub(rest, "\n---\n");
    proof {
        reveal_strlit("\n---\n");
        assert("\n---\n"@ =~= nl_dashes_nl());
        match five {
            Some(i) => {
                lemma_first_at_is(rest@, nl_dashes_nl(), i as int);
            },
            None => {
                lemma_first_at_none(rest@, nl_dashes_nl());
            },
        }
    }
    match five {
        Some(i) => Some(i),
        None => {
            let four = find_sub(rest, "\n---");
            proof {
                reveal_strlit("\n---");
                assert("\n---"@ =~= nl_dashes());
                match four {
                    Some(i) => {
                        lemma_first_at_is(rest@, nl_dashes(), i as int);
                    },
                    None => {
                        lemma_first_at_none(rest@, nl_dashes());
                    },
                }
            }
            match four {
                Some(i) => {
                    if i + 4 >= n {
                        Some(i)
                    } else {
                        None
                    }
                },
                None => None,
            }
        },
    }
}

/// Whether the text begins with the opening `---` fence.
pub(crate) fn starts_with_dashes(content: &str) -> (r: bool)
    ensures
        r == is_prefix(content@, dashes()),
{
    let n = content.unicode_len();
    if n < 3 {
        assert(!is_prefix(content@, dashes()));
        return false;
    }
    let r = content.get_char(0) == '-' && content.get_char(1) == '-' && content.get_char(2) == '-';
    proof {
        if r {
            assert(content@.subrange(0, 3) =~= dashes());
        } else {
            if is_prefix(content@, dashes()) {
                assert(content@.subrange(0, 3)[0] == content@[0]);
                assert(content@.subrange(0, 3)[1] == content@[1]);
                assert(content@.subrange(0, 3)[2] == content@[2]);
            }
        }
    }
    r
}

/// Decodes the frontmatter block of an entry file.
///
/// Returns `None` exactly when the opening fence or a newline-anchored
/// closing fence is missing; otherwise the decoded metadata, with the
/// legacy singular `language:` key lifted into a one-element list.  A
/// blank `id` is tolerated here; callers back-fill it from the filename.
pub fn parse_frontmatter(content: &str) -> (r: Option<EntryMeta>)
    ensures
        r is Some <==> spec_parse_frontmatter(content@) is Some,
        r matches Some(m) ==> spec_parse_frontmatter(content@) == Some(m@),
{
    if !starts_with_dashes(content) {
        return None;
    }
    let n = content.unicode_len();
    let rest = content.substring_char(3, n);
    proof {
        assert(rest@ == content@.skip(3));
    }
    let end = match find_fence(rest) {
        None => {
            return None;
        },
        Some(e) => e,
    };
    let yaml = trim_str(rest.substring_char(0, end));
    proof {
        assert(rest@.subrange(0, end as int) == rest@.take(end as int));
    }
    let mut state = init_state();
    fm_apply_lines(&mut state, yaml);
    let langs_empty = state.languages.len() == 0;
    let lang_empty = state.language.unicode_len() == 0;
    let languages = if langs_empty && !lang_empty {
        let mut ls: Vec<String> = Vec::new();
        ls.push(state.language);
        proof {
            assert(ls.deep_view() =~= seq![state.language@]);
        }
        ls
    } else {
        state.languages
    };
    let meta = EntryMeta {
        id: state.id,
        date: state.date,
        title: state.title,
        mode: state.mode,
        languages,
        date_format: state.date_format,
        created_at: state.created_at,
        updated_at: state.updated_at,
    };
    proof {
        assert(meta@ =~= spec_parse_frontmatter(content@).unwrap());
    }
    Some(meta)
}

} // verus!
