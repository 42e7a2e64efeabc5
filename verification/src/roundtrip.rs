//! The round-trip law: parsing a serialized entry reproduces it exactly.
//!
//! The law cannot hold of every value — a title with a newline breaks the
//! line structure, and a body text containing a section header line of its
//! own would be read as one — so the well-formedness conditions here state
//! exactly which shapes survive the trip.  They are what the codec's
//! file format can carry.

use vstd::prelude::*;

verus! {

use crate::frontmatter::{
    apply_line,
    clean_code,
    collect_codes,
    colon_sp,
    dashes,
    escape_str,
    fence_end,
    finish_acc,
    fold_lines,
    init_acc,
    key_created_at,
    key_date,
    key_date_format,
    key_id,
    key_languages,
    key_mode,
    key_title,
    key_updated_at,
    line_key_value,
    nl_dashes,
    nl_dashes_nl,
    parse_lang_list,
    spec_parse_frontmatter,
    unescape_str,
    unquote,
    FmAcc,
};
use crate::meta::MetaView;
use crate::is_ws;
use crate::text::{
    all_ws,
    drop_leading_char,
    drop_trailing_char,
    first_at,
    is_at,
    is_prefix,
    lemma_find_from_props,
    lemma_first_at_is,
    lemma_first_at_none,
    lemma_is_at_right,
    lemma_is_at_single,
    lemma_is_at_take,
    lemma_drop_leading_char_skip,
    lemma_drop_trailing_char_take,
    lemma_split_char_first,
    lemma_trim_padded,
    lemma_trim_stable_noop,
    no_char,
    spec_trim,
    split_char,
    trim_stable,
};

/// A plain (unquoted) frontmatter value that survives the trip: one line,
/// nothing trimmed away at its ends, and no boundary quote that the
/// quote-stripping rules would eat.
pub open spec fn wf_plain(s: Seq<char>) -> bool {
    no_char(s, '\n') && trim_stable(s) && (s.len() > 0 ==> s[0] != '"' && s[s.len() - 1] != '"')
}

/// An optional plain value: when present it is non-empty, so the last
/// frontmatter line never ends in whitespace.
pub open spec fn wf_opt_plain(o: Option<Seq<char>>) -> bool {
    match o {
        None => true,
        Some(s) => s.len() > 0 && wf_plain(s),
    }
}

/// A date display format: quoted on serialization but not escaped, so it
/// must not itself contain a quote.
pub open spec fn wf_opt_format(o: Option<Seq<char>>) -> bool {
    match o {
        None => true,
        Some(s) => s.len() > 0 && no_char(s, '\n') && no_char(s, '"') && trim_stable(s),
    }
}

/// A language code: non-empty, free of the list delimiters and of the
/// characters that the header scanner reacts to.
pub open spec fn wf_code(c: Seq<char>) -> bool {
    c.len() > 0 && trim_stable(c) && no_char(c, '\n') && no_char(c, ',') && no_char(c, '[')
        && no_char(c, ']') && no_char(c, '"') && no_char(c, '#')
}

pub open spec fn original_word() -> Seq<char> {
    seq!['O', 'r', 'i', 'g', 'i', 'n', 'a', 'l']
}

/// The declared languages: at least one code, all well-formed, no code a
/// prefix of an earlier one (its header would be found inside the earlier
/// header first), and none a prefix of the reserved `Original` label.
pub open spec fn wf_languages(ls: Seq<Seq<char>>) -> bool {
    ls.len() >= 1 && (forall|i: int| 0 <= i < ls.len() ==> wf_code(#[trigger] ls[i])) && (forall|
        i: int,
        j: int,
    |
        0 <= i < j < ls.len() ==> !is_prefix(#[trigger] ls[i], #[trigger] ls[j])) && (forall|i: int|
        0 <= i < ls.len() ==> !is_prefix(original_word(), #[trigger] ls[i]))
}

/// Metadata that the frontmatter block carries losslessly.
pub open spec fn wf_meta(m: MetaView) -> bool {
    wf_plain(m.id) && no_char(m.title, '\n') && wf_plain(m.date) && wf_plain(m.mode)
        && wf_languages(m.languages) && wf_opt_format(m.date_format) && wf_opt_plain(m.created_at)
        && wf_opt_plain(m.updated_at)
}

/// Escaping introduces no newline.
pub proof fn lemma_escape_no_char(s: Seq<char>, c: char)
    requires
        no_char(s, c),
        c != '\\',
        c != '"',
    ensures
        no_char(escape_str(s), c),
    decreases s.len(),
{
    if s.len() > 0 {
        lemma_escape_no_char(s.skip(1), c);
        let head = if s[0] == '\\' {
            seq!['\\', '\\']
        } else if s[0] == '"' {
            seq!['\\', '"']
        } else {
            seq![s[0]]
        };
        assert(escape_str(s) == head + escape_str(s.skip(1)));
        assert forall|i: int| 0 <= i < escape_str(s).len() implies escape_str(s)[i] != c by {
            if i < head.len() {
                assert(escape_str(s)[i] == head[i]);
            } else {
                assert(escape_str(s)[i] == escape_str(s.skip(1))[i - head.len()]);
            }
        }
    }
}

/// Unescaping undoes escaping: the title codec loses nothing.
pub proof fn lemma_unescape_escape(s: Seq<char>)
    ensures
        unescape_str(escape_str(s)) == s,
    decreases s.len(),
{
    if s.len() == 0 {
        assert(unescape_str(escape_str(s)) =~= s);
    } else {
        lemma_unescape_escape(s.skip(1));
        let e = escape_str(s);
        if s[0] == '\\' {
            assert(e == seq!['\\', '\\'] + escape_str(s.skip(1)));
            assert(e.len() >= 2 && e[0] == '\\' && e[1] == '\\');
            assert(e.skip(2) =~= escape_str(s.skip(1)));
            assert(unescape_str(e) == seq![e[1]] + unescape_str(e.skip(2)));
            assert(unescape_str(e) =~= s);
        } else if s[0] == '"' {
            assert(e == seq!['\\', '"'] + escape_str(s.skip(1)));
            assert(e.len() >= 2 && e[0] == '\\' && e[1] == '"');
            assert(e.skip(2) =~= escape_str(s.skip(1)));
            assert(unescape_str(e) == seq![e[1]] + unescape_str(e.skip(2)));
            assert(unescape_str(e) =~= s);
        } else {
            assert(e == seq![s[0]] + escape_str(s.skip(1)));
            assert(e[0] == s[0]);
            assert(e.skip(1) =~= escape_str(s.skip(1)));
            if e.len() >= 2 && e[0] == '\\' && (e[1] == '"' || e[1] == '\\') {
                assert(s[0] == '\\');
                assert(false);
            }
            assert(unescape_str(e) == seq![e[0]] + unescape_str(e.skip(1)));
            assert(unescape_str(e) =~= s);
        }
    }
}

/// The frontmatter lines of a metadata record, in serialization order.
pub open spec fn fm_lines_of(m: MetaView) -> Seq<Seq<char>> {
    seq![
        key_id() + colon_sp() + m.id,
        key_title() + colon_sp() + crate::entry::quoted(escape_str(m.title)),
        key_date() + colon_sp() + m.date,
        key_mode() + colon_sp() + m.mode,
        key_languages() + colon_sp() + seq!['['] + crate::entry::join_codes(m.languages)
            + seq![']'],
    ] + (match m.date_format {
        None => Seq::<Seq<char>>::empty(),
        Some(f) => seq![key_date_format() + colon_sp() + crate::entry::quoted(f)],
    }) + (match m.created_at {
        None => Seq::<Seq<char>>::empty(),
        Some(t) => seq![key_created_at() + colon_sp() + t],
    }) + (match m.updated_at {
        None => Seq::<Seq<char>>::empty(),
        Some(t) => seq![key_updated_at() + colon_sp() + t],
    })
}

/// Lines joined with a newline after each one.
pub open spec fn cat_nl(lines: Seq<Seq<char>>) -> Seq<char>
    decreases lines.len(),
{
    if lines.len() == 0 {
        Seq::empty()
    } else {
        lines[0] + seq!['\n'] + cat_nl(lines.drop_first())
    }
}

pub proof fn lemma_cat_nl_add(a: Seq<Seq<char>>, b: Seq<Seq<char>>)
    ensures
        cat_nl(a + b) == cat_nl(a) + cat_nl(b),
    decreases a.len(),
{
    if a.len() == 0 {
        assert(a + b =~= b);
        assert(cat_nl(a) + cat_nl(b) =~= cat_nl(b));
    } else {
        lemma_cat_nl_add(a.drop_first(), b);
        assert((a + b).drop_first() =~= a.drop_first() + b);
        assert((a + b)[0] == a[0]);
        assert(cat_nl(a + b) == (a + b)[0] + seq!['\n'] + cat_nl((a + b).drop_first()));
        assert(cat_nl(a + b) =~= cat_nl(a) + cat_nl(b));
    }
}

pub proof fn lemma_cat_nl_single(l: Seq<char>)
    ensures
        cat_nl(seq![l]) == l + seq!['\n'],
{
    assert(seq![l].drop_first() =~= Seq::<Seq<char>>::empty());
    assert(cat_nl(Seq::<Seq<char>>::empty()) == Seq::<char>::empty());
    assert(cat_nl(seq![l]) == seq![l][0] + seq!['\n'] + cat_nl(seq![l].drop_first()));
    assert(cat_nl(seq![l]) =~= l + seq!['\n']);
}

proof fn lemma_cat_nl_five(a: Seq<char>, b: Seq<char>, c: Seq<char>, d: Seq<char>, e: Seq<char>)
    ensures
        cat_nl(seq![a, b, c, d, e]) == a + seq!['\n'] + b + seq!['\n'] + c + seq!['\n'] + d + seq![
            '\n',
        ] + e + seq!['\n'],
{
    let s = seq![a, b, c, d, e];
    assert(s.drop_first() =~= seq![b, c, d, e]);
    assert(seq![b, c, d, e].drop_first() =~= seq![c, d, e]);
    assert(seq![c, d, e].drop_first() =~= seq![d, e]);
    assert(seq![d, e].drop_first() =~= seq![e]);
    lemma_cat_nl_single(e);
    assert(cat_nl(seq![d, e]) == d + seq!['\n'] + cat_nl(seq![e]));
    assert(cat_nl(seq![c, d, e]) == c + seq!['\n'] + cat_nl(seq![d, e]));
    assert(cat_nl(seq![b, c, d, e]) == b + seq!['\n'] + cat_nl(seq![c, d, e]));
    assert(cat_nl(s) == a + seq!['\n'] + cat_nl(seq![b, c, d, e]));
    assert(cat_nl(s) =~= a + seq!['\n'] + b + seq!['\n'] + c + seq!['\n'] + d + seq!['\n'] + e
        + seq!['\n']);
}

/// `cat_nl` of the frontmatter lines, flattened: each line followed by a
/// newline, optional lines contributing their `opt_line` text.
#[verifier::rlimit(100)]
proof fn lemma_fm_lines_cat(m: MetaView)
    ensures
        cat_nl(fm_lines_of(m)) == key_id() + colon_sp() + m.id + seq!['\n'] + key_title()
            + colon_sp() + crate::entry::quoted(escape_str(m.title)) + seq!['\n'] + key_date()
            + colon_sp() + m.date + seq!['\n'] + key_mode() + colon_sp() + m.mode + seq!['\n']
            + key_languages() + colon_sp() + seq!['['] + crate::entry::join_codes(m.languages)
            + seq![']'] + seq!['\n'] + crate::entry::opt_line(key_date_format(), m.date_format, true)
            + crate::entry::opt_line(key_created_at(), m.created_at, false) + crate::entry::opt_line(
            key_updated_at(),
            m.updated_at,
            false,
        ),
{
    let l0 = key_id() + colon_sp() + m.id;
    let l1 = key_title() + colon_sp() + crate::entry::quoted(escape_str(m.title));
    let l2 = key_date() + colon_sp() + m.date;
    let l3 = key_mode() + colon_sp() + m.mode;
    let l4 = key_languages() + colon_sp() + seq!['['] + crate::entry::join_codes(m.languages)
        + seq![']'];
    let base: Seq<Seq<char>> = seq![l0, l1, l2, l3, l4];
    let odf: Seq<Seq<char>> = match m.date_format {
        None => Seq::empty(),
        Some(f) => seq![key_date_format() + colon_sp() + crate::entry::quoted(f)],
    };
    let oca: Seq<Seq<char>> = match m.created_at {
        None => Seq::empty(),
        Some(t) => seq![key_created_at() + colon_sp() + t],
    };
    let oua: Seq<Seq<char>> = match m.updated_at {
        None => Seq::empty(),
        Some(t) => seq![key_updated_at() + colon_sp() + t],
    };
    assert(fm_lines_of(m) == base + odf + oca + oua);
    lemma_cat_nl_add(base + odf + oca, oua);
    lemma_cat_nl_add(base + odf, oca);
    lemma_cat_nl_add(base, odf);
    lemma_cat_nl_five(l0, l1, l2, l3, l4);
    match m.date_format {
        None => {
            assert(cat_nl(odf) == Seq::<char>::empty());
            assert(cat_nl(odf) =~= crate::entry::opt_line(key_date_format(), m.date_format, true));
        },
        Some(f) => {
            lemma_cat_nl_single(key_date_format() + colon_sp() + crate::entry::quoted(f));
            assert(cat_nl(odf) =~= crate::entry::opt_line(key_date_format(), m.date_format, true));
        },
    }
    match m.created_at {
        None => {
            assert(cat_nl(oca) =~= crate::entry::opt_line(key_created_at(), m.created_at, false));
        },
        Some(t) => {
            lemma_cat_nl_single(key_created_at() + colon_sp() + t);
            assert(cat_nl(oca) =~= crate::entry::opt_line(key_created_at(), m.created_at, false));
        },
    }
    match m.updated_at {
        None => {
            assert(cat_nl(oua) =~= crate::entry::opt_line(key_updated_at(), m.updated_at, false));
        },
        Some(t) => {
            lemma_cat_nl_single(key_updated_at() + colon_sp() + t);
            assert(cat_nl(oua) =~= crate::entry::opt_line(key_updated_at(), m.updated_at, false));
        },
    }
    assert(cat_nl(fm_lines_of(m)) == cat_nl(base) + cat_nl(odf) + cat_nl(oca) + cat_nl(oua));
    assert(cat_nl(fm_lines_of(m)) =~= l0 + seq!['\n'] + l1 + seq!['\n'] + l2 + seq!['\n'] + l3
        + seq!['\n'] + l4 + seq!['\n'] + cat_nl(odf) + cat_nl(oca) + cat_nl(oua));
}

/// The serialized frontmatter block, written with its line list.
#[verifier::rlimit(100)]
pub proof fn lemma_fm_block_lines(m: MetaView)
    ensures
        crate::entry::spec_fm_block(m) == dashes() + seq!['\n'] + cat_nl(fm_lines_of(m)) + dashes()
            + seq!['\n'],
{
    lemma_fm_lines_cat(m);
    assert(crate::entry::spec_fm_block(m) =~= dashes() + seq!['\n'] + cat_nl(fm_lines_of(m))
        + dashes() + seq!['\n']);
}

pub proof fn lemma_no_char_add(a: Seq<char>, b: Seq<char>, c: char)
    requires
        no_char(a, c),
        no_char(b, c),
    ensures
        no_char(a + b, c),
{
    assert forall|i: int| 0 <= i < (a + b).len() implies (a + b)[i] != c by {
        if i < a.len() {
            assert((a + b)[i] == a[i]);
        } else {
            assert((a + b)[i] == b[i - a.len()]);
        }
    }
}

/// Joined codes: non-empty, bracket- and newline-free, starting and ending
/// with the outer codes' own characters.
pub proof fn lemma_join_codes_props(ls: Seq<Seq<char>>)
    requires
        forall|i: int| 0 <= i < ls.len() ==> wf_code(#[trigger] ls[i]),
        ls.len() >= 1,
    ensures
        ({
            let j = crate::entry::join_codes(ls);
            j.len() > 0 && j[0] == ls[0][0] && j[j.len() - 1] == ls[ls.len() - 1][ls[ls.len()
                - 1].len() - 1] && no_char(j, '\n') && no_char(j, '[') && no_char(j, ']')
        }),
    decreases ls.len(),
{
    let j = crate::entry::join_codes(ls);
    if ls.len() == 1 {
        assert(j == ls[0]);
    } else {
        let rest = ls.drop_first();
        lemma_join_codes_props(rest);
        let jr = crate::entry::join_codes(rest);
        assert(j == ls[0] + seq![',', ' '] + jr);
        assert(j[0] == ls[0][0]);
        assert(j[j.len() - 1] == jr[jr.len() - 1]);
        assert(rest[rest.len() - 1] == ls[ls.len() - 1]);
        lemma_no_char_add(ls[0], seq![',', ' '], '\n');
        lemma_no_char_add(ls[0] + seq![',', ' '], jr, '\n');
        lemma_no_char_add(ls[0], seq![',', ' '], '[');
        lemma_no_char_add(ls[0] + seq![',', ' '], jr, '[');
        lemma_no_char_add(ls[0], seq![',', ' '], ']');
        lemma_no_char_add(ls[0] + seq![',', ' '], jr, ']');
    }
}

/// A serialized `key: value` line decodes to exactly that key and the
/// quote-stripped value.
pub proof fn lemma_line_kv(key: Seq<char>, v: Seq<char>)
    requires
        key.len() > 0,
        no_char(key, ':'),
        forall|i: int| 0 <= i < key.len() ==> !is_ws(#[trigger] key[i]),
        no_char(v, '\n'),
        trim_stable(v),
    ensures
        line_key_value(key + colon_sp() + v) == Some((key, unquote(v))),
{
    let line = key + colon_sp() + v;
    let l = spec_trim(line);
    lemma_trim_stable_noop(key);
    if v.len() > 0 {
        assert(line[0] == key[0]);
        assert(line[line.len() - 1] == v[v.len() - 1]);
        lemma_trim_stable_noop(line);
        assert(l == line);
    } else {
        assert(line =~= (key + seq![':']) + seq![' ']);
        assert((key + seq![':'])[0] == key[0]);
        assert((key + seq![':'])[key.len() as int] == ':');
        lemma_trim_padded(Seq::empty(), key + seq![':'], seq![' ']);
        assert(Seq::empty() + (key + seq![':']) + seq![' '] =~= line);
        assert(l == key + seq![':']);
    }
    let k = key.len() as int;
    assert(l[k] == ':');
    assert forall|j: int| 0 <= j < k implies l[j] != ':' by {
        assert(l[j] == key[j]);
    }
    assert(is_at(l, seq![':'], k)) by {
        lemma_is_at_single(l, ':', k);
    }
    assert forall|j: int| 0 <= j < k implies !is_at(l, seq![':'], j) by {
        lemma_is_at_single(l, ':', j);
    }
    lemma_first_at_is(l, seq![':'], k);
    assert(spec_trim(l.take(k)) == key) by {
        assert(l.take(k) =~= key);
        lemma_trim_stable_noop(key);
    }
    if v.len() > 0 {
        assert(l.skip(k + 1) =~= seq![' '] + v + Seq::<char>::empty());
        lemma_trim_padded(seq![' '], v, Seq::empty());
        assert(spec_trim(l.skip(k + 1)) == v);
    } else {
        assert(l.skip(k + 1) =~= Seq::<char>::empty());
        assert(spec_trim(l.skip(k + 1)) =~= v) by {
            lemma_trim_stable_noop(v);
        }
    }
}

/// Quote stripping leaves a value with no boundary quotes unchanged.
pub proof fn lemma_unquote_plain(v: Seq<char>)
    requires
        v.len() > 0 ==> v[0] != '"' && v[v.len() - 1] != '"',
    ensures
        unquote(v) == v,
{
    lemma_drop_leading_char_skip(v, '"', 0);
    assert(v.skip(0) == v);
    lemma_drop_trailing_char_take(v, '"', v.len() as int);
    assert(v.take(v.len() as int) == v);
}

/// Quote stripping removes exactly one surrounding pair.
pub proof fn lemma_unquote_quoted(s: Seq<char>)
    ensures
        unquote(crate::entry::quoted(s)) == s,
{
    let v = crate::entry::quoted(s);
    assert(v.len() == s.len() + 2);
    assert(v[0] == '"');
    assert(v[v.len() - 1] == '"');
    assert(v.subrange(1, v.len() - 1) =~= s);
}

/// Parsing the pieces of a joined code list recovers the codes; `pad` is
/// whitespace carried over from the previous separator.
pub proof fn lemma_codes_round(pad: Seq<char>, ls: Seq<Seq<char>>)
    requires
        all_ws(pad),
        forall|i: int| 0 <= i < ls.len() ==> wf_code(#[trigger] ls[i]),
        ls.len() >= 1,
    ensures
        collect_codes(split_char(pad + crate::entry::join_codes(ls), ',')) == ls,
    decreases ls.len(),
{
    let j = crate::entry::join_codes(ls);
    let s = pad + j;
    let c0 = ls[0];
    if ls.len() == 1 {
        assert(j == c0);
        assert forall|q: int| !is_at(s, seq![','], q) by {
            lemma_is_at_single(s, ',', q);
            if 0 <= q < s.len() && s[q] == ',' {
                if q < pad.len() {
                    assert(is_ws(pad[q]));
                    assert(false);
                } else {
                    assert(s[q] == c0[q - pad.len()]);
                    assert(false);
                }
            }
        }
        lemma_first_at_none(s, seq![',']);
        lemma_split_char_first(s, ',');
        assert(split_char(s, ',') == seq![s]);
        assert(clean_code(s) == c0) by {
            lemma_trim_padded(pad, c0, Seq::empty());
            assert(pad + c0 + Seq::<char>::empty() =~= s);
            assert(spec_trim(s) == c0);
            lemma_drop_leading_char_skip(c0, '"', 0);
            assert(c0.skip(0) == c0);
            lemma_drop_trailing_char_take(c0, '"', c0.len() as int);
            assert(c0.take(c0.len() as int) == c0);
        }
        assert(seq![s].drop_first() =~= Seq::<Seq<char>>::empty());
        assert(collect_codes(Seq::<Seq<char>>::empty()) =~= Seq::<Seq<char>>::empty());
        assert(collect_codes(split_char(s, ',')) =~= seq![c0]);
        assert(seq![c0] =~= ls);
    } else {
        let rest = ls.drop_first();
        let jr = crate::entry::join_codes(rest);
        assert(j == c0 + seq![',', ' '] + jr);
        let q = pad.len() + c0.len();
        assert(s =~= (pad + c0) + seq![','] + (seq![' '] + jr));
        assert(s[q as int] == ',');
        assert forall|p: int| 0 <= p < q implies !is_at(s, seq![','], p) by {
            lemma_is_at_single(s, ',', p);
            if 0 <= p < s.len() && s[p] == ',' {
                if p < pad.len() {
                    assert(is_ws(pad[p]));
                } else if p < q {
                    assert(s[p] == c0[p - pad.len()]);
                }
            }
        }
        assert(is_at(s, seq![','], q as int)) by {
            lemma_is_at_single(s, ',', q as int);
        }
        lemma_first_at_is(s, seq![','], q as int);
        lemma_split_char_first(s, ',');
        assert(split_char(s, ',') == seq![s.take(q as int)] + split_char(s.skip(q as int + 1), ','));
        assert(s.take(q as int) =~= pad + c0);
        assert(s.skip(q as int + 1) =~= seq![' '] + jr);
        lemma_codes_round(seq![' '], rest);
        assert(clean_code(pad + c0) == c0) by {
            lemma_trim_padded(pad, c0, Seq::empty());
            assert(pad + c0 + Seq::<char>::empty() =~= pad + c0);
            lemma_drop_leading_char_skip(c0, '"', 0);
            assert(c0.skip(0) == c0);
            lemma_drop_trailing_char_take(c0, '"', c0.len() as int);
            assert(c0.take(c0.len() as int) == c0);
        }
        let pieces = split_char(s, ',');
        assert(pieces[0] == pad + c0);
        assert(pieces.drop_first() =~= split_char(seq![' '] + jr, ','));
        assert(collect_codes(pieces) == seq![c0] + collect_codes(split_char(seq![' '] + jr, ',')));
        assert(collect_codes(pieces) =~= ls);
    }
}

/// The bracketed language-list value parses back to the codes.
pub proof fn lemma_lang_list_round(ls: Seq<Seq<char>>)
    requires
        forall|i: int| 0 <= i < ls.len() ==> wf_code(#[trigger] ls[i]),
        ls.len() >= 1,
    ensures
        parse_lang_list(seq!['['] + crate::entry::join_codes(ls) + seq![']']) == ls,
{
    let j = crate::entry::join_codes(ls);
    lemma_join_codes_props(ls);
    let v = seq!['['] + j + seq![']'];
    assert(v[0] == '[');
    assert(v[v.len() - 1] == ']');
    lemma_trim_stable_noop(v);
    assert(spec_trim(v) == v);
    assert(drop_leading_char(v, '[') == j + seq![']']) by {
        assert(v[1] == j[0]);
        lemma_drop_leading_char_skip(v, '[', 1);
        assert(v.skip(1) =~= j + seq![']']);
    }
    assert(drop_trailing_char(j + seq![']'], ']') == j) by {
        let u = j + seq![']'];
        assert(u[u.len() - 1] == ']');
        assert(u[j.len() - 1] == j[j.len() - 1]);
        lemma_drop_trailing_char_take(u, ']', j.len() as int);
        assert(u.take(j.len() as int) =~= j);
    }
    lemma_codes_round(Seq::empty(), ls);
    assert(Seq::<char>::empty() + j =~= j);
}

/// Lines joined with a separating newline (none at the end).
pub open spec fn cat_sep(lines: Seq<Seq<char>>) -> Seq<char>
    decreases lines.len(),
{
    if lines.len() == 0 {
        Seq::empty()
    } else if lines.len() == 1 {
        lines[0]
    } else {
        lines[0] + seq!['\n'] + cat_sep(lines.drop_first())
    }
}

pub proof fn lemma_cat_nl_sep(lines: Seq<Seq<char>>)
    requires
        lines.len() >= 1,
    ensures
        cat_nl(lines) == cat_sep(lines) + seq!['\n'],
    decreases lines.len(),
{
    if lines.len() == 1 {
        lemma_cat_nl_single(lines[0]);
        assert(seq![lines[0]] =~= lines);
    } else {
        lemma_cat_nl_sep(lines.drop_first());
        assert(cat_nl(lines) =~= cat_sep(lines) + seq!['\n']);
    }
}

/// Splitting the joined lines on newlines gives the lines back.
pub proof fn lemma_split_cat_sep(lines: Seq<Seq<char>>)
    requires
        lines.len() >= 1,
        forall|i: int| 0 <= i < lines.len() ==> no_char(#[trigger] lines[i], '\n'),
    ensures
        split_char(cat_sep(lines), '\n') == lines,
    decreases lines.len(),
{
    let s = cat_sep(lines);
    let l0 = lines[0];
    if lines.len() == 1 {
        assert(s == l0);
        assert forall|q: int| !is_at(s, seq!['\n'], q) by {
            lemma_is_at_single(s, '\n', q);
        }
        lemma_first_at_none(s, seq!['\n']);
        lemma_split_char_first(s, '\n');
        assert(split_char(s, '\n') == seq![s]);
        assert(seq![s] =~= lines);
    } else {
        let rest = lines.drop_first();
        assert(s == l0 + seq!['\n'] + cat_sep(rest));
        let k = l0.len() as int;
        assert(s =~= l0 + seq!['\n'] + cat_sep(rest));
        assert(s[k] == '\n');
        assert forall|q: int| 0 <= q < k implies !is_at(s, seq!['\n'], q) by {
            lemma_is_at_single(s, '\n', q);
            if 0 <= q < s.len() && s[q] == '\n' && q < k {
                assert(s[q] == l0[q]);
            }
        }
        assert(is_at(s, seq!['\n'], k)) by {
            lemma_is_at_single(s, '\n', k);
        }
        lemma_first_at_is(s, seq!['\n'], k);
        lemma_split_char_first(s, '\n');
        assert(split_char(s, '\n') == seq![s.take(k)] + split_char(s.skip(k + 1), '\n'));
        assert(s.take(k) =~= l0);
        assert(s.skip(k + 1) =~= cat_sep(rest));
        lemma_split_cat_sep(rest);
        assert(split_char(s, '\n') =~= lines);
    }
}

/// Folding distributes over concatenation of line lists.
pub proof fn lemma_fold_append(acc: FmAcc, a: Seq<Seq<char>>, b: Seq<Seq<char>>)
    ensures
        fold_lines(acc, a + b) == fold_lines(fold_lines(acc, a), b),
    decreases a.len(),
{
    if a.len() == 0 {
        assert(a + b =~= b);
    } else {
        lemma_fold_append(apply_line(acc, a[0]), a.drop_first(), b);
        assert((a + b)[0] == a[0]);
        assert((a + b).drop_first() =~= a.drop_first() + b);
        assert(fold_lines(acc, a + b) == fold_lines(apply_line(acc, (a + b)[0]), (a
            + b).drop_first()));
    }
}

/// A line of the fenced block as the fence scanner sees it: non-empty, it
/// cannot begin a closing fence, and it spans no second line.
pub open spec fn good_line(l: Seq<char>) -> bool {
    l.len() > 0 && l[0] != '-' && !is_ws(l[0]) && no_char(l, '\n')
}

/// The joined lines keep their first and last characters at the ends.
pub proof fn lemma_cat_sep_ends(lines: Seq<Seq<char>>)
    requires
        lines.len() >= 1,
        forall|i: int| 0 <= i < lines.len() ==> #[trigger] lines[i].len() > 0,
    ensures
        cat_sep(lines).len() > 0,
        cat_sep(lines)[0] == lines[0][0],
        cat_sep(lines)[cat_sep(lines).len() - 1] == lines[lines.len() - 1][lines[lines.len()
            - 1].len() - 1],
    decreases lines.len(),
{
    if lines.len() == 1 {
    } else {
        let rest = lines.drop_first();
        lemma_cat_sep_ends(rest);
        let s = cat_sep(lines);
        assert(s == lines[0] + seq!['\n'] + cat_sep(rest));
        assert(s[0] == lines[0][0]);
        assert(s[s.len() - 1] == cat_sep(rest)[cat_sep(rest).len() - 1]);
        assert(rest[rest.len() - 1] == lines[lines.len() - 1]);
    }
}

/// Every serialized frontmatter line is fence-safe, and the block's last
/// line does not end in whitespace.
pub proof fn lemma_fm_lines_good(m: MetaView)
    requires
        wf_meta(m),
    ensures
        forall|i: int| 0 <= i < fm_lines_of(m).len() ==> good_line(#[trigger] fm_lines_of(m)[i]),
        fm_lines_of(m).len() >= 5,
        ({
            let lines = fm_lines_of(m);
            let last = lines[lines.len() - 1];
            !is_ws(last[last.len() - 1])
        }),
{
    let lines = fm_lines_of(m);
    let l0 = key_id() + colon_sp() + m.id;
    let l1 = key_title() + colon_sp() + crate::entry::quoted(escape_str(m.title));
    let l2 = key_date() + colon_sp() + m.date;
    let l3 = key_mode() + colon_sp() + m.mode;
    let jv = seq!['['] + crate::entry::join_codes(m.languages) + seq![']'];
    let l4 = key_languages() + colon_sp() + jv;
    lemma_escape_no_char(m.title, '\n');
    lemma_join_codes_props(m.languages);
    assert(no_char(l0, '\n')) by {
        lemma_no_char_add(key_id() + colon_sp(), m.id, '\n');
        assert(key_id() + colon_sp() + m.id =~= (key_id() + colon_sp()) + m.id);
    }
    assert(no_char(l1, '\n')) by {
        let q = crate::entry::quoted(escape_str(m.title));
        lemma_no_char_add(seq!['"'] + escape_str(m.title), seq!['"'], '\n');
        lemma_no_char_add(seq!['"'], escape_str(m.title), '\n');
        lemma_no_char_add(key_title() + colon_sp(), q, '\n');
        assert(l1 =~= (key_title() + colon_sp()) + q);
    }
    assert(no_char(l2, '\n')) by {
        lemma_no_char_add(key_date() + colon_sp(), m.date, '\n');
        assert(l2 =~= (key_date() + colon_sp()) + m.date);
    }
    assert(no_char(l3, '\n')) by {
        lemma_no_char_add(key_mode() + colon_sp(), m.mode, '\n');
        assert(l3 =~= (key_mode() + colon_sp()) + m.mode);
    }
    assert(no_char(l4, '\n')) by {
        lemma_no_char_add(seq!['['] + crate::entry::join_codes(m.languages), seq![']'], '\n');
        lemma_no_char_add(seq!['['], crate::entry::join_codes(m.languages), '\n');
        lemma_no_char_add(key_languages() + colon_sp(), jv, '\n');
        assert(l4 =~= (key_languages() + colon_sp()) + jv);
    }
    assert(good_line(l0) && good_line(l1) && good_line(l2) && good_line(l3) && good_line(l4)) by {
        assert(l0[0] == 'i' && l1[0] == 't' && l2[0] == 'd' && l3[0] == 'm' && l4[0] == 'l');
    }
    let odf: Seq<Seq<char>> = match m.date_format {
        None => Seq::empty(),
        Some(f) => seq![key_date_format() + colon_sp() + crate::entry::quoted(f)],
    };
    let oca: Seq<Seq<char>> = match m.created_at {
        None => Seq::empty(),
        Some(t) => seq![key_created_at() + colon_sp() + t],
    };
    let oua: Seq<Seq<char>> = match m.updated_at {
        None => Seq::empty(),
        Some(t) => seq![key_updated_at() + colon_sp() + t],
    };
    match m.date_format {
        None => {},
        Some(f) => {
            let l = key_date_format() + colon_sp() + crate::entry::quoted(f);
            assert(good_line(l)) by {
                assert(l[0] == 'd');
                lemma_no_char_add(seq!['"'] + f, seq!['"'], '\n');
                lemma_no_char_add(seq!['"'], f, '\n');
                lemma_no_char_add(key_date_format() + colon_sp(), crate::entry::quoted(f), '\n');
                assert(l =~= (key_date_format() + colon_sp()) + crate::entry::quoted(f));
            }
            assert(l[l.len() - 1] == '"');
        },
    }
    match m.created_at {
        None => {},
        Some(t) => {
            let l = key_created_at() + colon_sp() + t;
            assert(good_line(l)) by {
                assert(l[0] == 'c');
                lemma_no_char_add(key_created_at() + colon_sp(), t, '\n');
                assert(l =~= (key_created_at() + colon_sp()) + t);
            }
            assert(l[l.len() - 1] == t[t.len() - 1]);
        },
    }
    match m.updated_at {
        None => {},
        Some(t) => {
            let l = key_updated_at() + colon_sp() + t;
            assert(good_line(l)) by {
                assert(l[0] == 'u');
                lemma_no_char_add(key_updated_at() + colon_sp(), t, '\n');
                assert(l =~= (key_updated_at() + colon_sp()) + t);
            }
            assert(l[l.len() - 1] == t[t.len() - 1]);
        },
    }
    assert(lines =~~= seq![l0, l1, l2, l3, l4] + odf + oca + oua);
    assert forall|i: int| 0 <= i < lines.len() implies good_line(#[trigger] lines[i]) by {
        if i < 5 {
            assert(lines[i] == seq![l0, l1, l2, l3, l4][i]);
        } else if i < 5 + odf.len() {
            assert(lines[i] == odf[i - 5]);
        } else if i < 5 + odf.len() + oca.len() {
            assert(lines[i] == oca[i - 5 - odf.len()]);
        } else {
            assert(lines[i] == oua[i - 5 - odf.len() - oca.len()]);
        }
    }
    let last = lines[lines.len() - 1];
    assert(!is_ws(last[last.len() - 1])) by {
        if oua.len() > 0 {
            assert(last == oua[0]);
        } else if oca.len() > 0 {
            assert(last == oca[0]);
        } else if odf.len() > 0 {
            assert(last == odf[0]);
        } else {
            assert(last == l4);
            assert(l4[l4.len() - 1] == ']');
        }
    }
}

/// Folding the serialized lines recovers the metadata record.
#[verifier::rlimit(100)]
pub proof fn lemma_fold_fm_lines(m: MetaView)
    requires
        wf_meta(m),
    ensures
        finish_acc(fold_lines(init_acc(), fm_lines_of(m))) == m,
{
    let l0 = key_id() + colon_sp() + m.id;
    let l1 = key_title() + colon_sp() + crate::entry::quoted(escape_str(m.title));
    let l2 = key_date() + colon_sp() + m.date;
    let l3 = key_mode() + colon_sp() + m.mode;
    let jv = seq!['['] + crate::entry::join_codes(m.languages) + seq![']'];
    let l4 = key_languages() + colon_sp() + jv;
    let base: Seq<Seq<char>> = seq![l0, l1, l2, l3, l4];
    let odf: Seq<Seq<char>> = match m.date_format {
        None => Seq::empty(),
        Some(f) => seq![key_date_format() + colon_sp() + crate::entry::quoted(f)],
    };
    let oca: Seq<Seq<char>> = match m.created_at {
        None => Seq::empty(),
        Some(t) => seq![key_created_at() + colon_sp() + t],
    };
    let oua: Seq<Seq<char>> = match m.updated_at {
        None => Seq::empty(),
        Some(t) => seq![key_updated_at() + colon_sp() + t],
    };
    assert(fm_lines_of(m) =~~= base + odf + oca + oua);
    assert(fm_lines_of(m) =~~= (base + odf) + oca + oua);
    lemma_fold_append(init_acc(), base, odf);
    lemma_fold_append(init_acc(), base + odf, oca);
    lemma_fold_append(init_acc(), (base + odf) + oca, oua);
    assert(key_mode() != key_date()) by {
        assert(key_mode()[0] != key_date()[0]);
    }
    assert(key_updated_at() != key_created_at()) by {
        assert(key_updated_at()[0] != key_created_at()[0]);
    }
    // the five mandatory lines, one apply each
    let a0 = init_acc();
    lemma_line_kv(key_id(), m.id);
    lemma_unquote_plain(m.id);
    let a1 = apply_line(a0, l0);
    assert(a1 == FmAcc { id: m.id, ..a0 });
    lemma_escape_no_char(m.title, '\n');
    assert(no_char(crate::entry::quoted(escape_str(m.title)), '\n')) by {
        lemma_no_char_add(seq!['"'] + escape_str(m.title), seq!['"'], '\n');
        lemma_no_char_add(seq!['"'], escape_str(m.title), '\n');
    }
    lemma_line_kv(key_title(), crate::entry::quoted(escape_str(m.title)));
    lemma_unquote_quoted(escape_str(m.title));
    lemma_unescape_escape(m.title);
    let a2 = apply_line(a1, l1);
    assert(a2 == FmAcc { title: m.title, ..a1 });
    lemma_line_kv(key_date(), m.date);
    lemma_unquote_plain(m.date);
    let a3 = apply_line(a2, l2);
    assert(a3 == FmAcc { date: m.date, ..a2 });
    lemma_line_kv(key_mode(), m.mode);
    lemma_unquote_plain(m.mode);
    let a4 = apply_line(a3, l3);
    assert(a4 == FmAcc { mode: m.mode, ..a3 });
    lemma_join_codes_props(m.languages);
    assert(no_char(jv, '\n')) by {
        lemma_no_char_add(seq!['['] + crate::entry::join_codes(m.languages), seq![']'], '\n');
        lemma_no_char_add(seq!['['], crate::entry::join_codes(m.languages), '\n');
    }
    lemma_line_kv(key_languages(), jv);
    assert(unquote(jv) == jv) by {
        lemma_unquote_plain(jv);
    }
    lemma_lang_list_round(m.languages);
    let a5 = apply_line(a4, l4);
    assert(a5 == FmAcc { languages: m.languages, ..a4 });
    assert(fold_lines(a0, base) == a5) by {
        assert(base.drop_first() =~= seq![l1, l2, l3, l4]);
        assert(seq![l1, l2, l3, l4].drop_first() =~= seq![l2, l3, l4]);
        assert(seq![l2, l3, l4].drop_first() =~= seq![l3, l4]);
        assert(seq![l3, l4].drop_first() =~= seq![l4]);
        assert(seq![l4].drop_first() =~= Seq::<Seq<char>>::empty());
        assert(fold_lines(a5, Seq::<Seq<char>>::empty()) == a5);
        assert(fold_lines(a4, seq![l4]) == fold_lines(a5, seq![l4].drop_first()));
        assert(fold_lines(a3, seq![l3, l4]) == fold_lines(a4, seq![l3, l4].drop_first()));
        assert(fold_lines(a2, seq![l2, l3, l4]) == fold_lines(a3, seq![l2, l3, l4].drop_first()));
        assert(fold_lines(a1, seq![l1, l2, l3, l4]) == fold_lines(
            a2,
            seq![l1, l2, l3, l4].drop_first(),
        ));
        assert(fold_lines(a0, base) == fold_lines(a1, base.drop_first()));
    }
    // the optional lines
    let a6 = fold_lines(a5, odf);
    match m.date_format {
        None => {
            assert(a6 == a5);
        },
        Some(f) => {
            let l = key_date_format() + colon_sp() + crate::entry::quoted(f);
            assert(no_char(crate::entry::quoted(f), '\n')) by {
                lemma_no_char_add(seq!['"'] + f, seq!['"'], '\n');
                lemma_no_char_add(seq!['"'], f, '\n');
            }
            lemma_line_kv(key_date_format(), crate::entry::quoted(f));
            lemma_unquote_quoted(f);
            assert(odf.drop_first() =~= Seq::<Seq<char>>::empty());
            assert(fold_lines(apply_line(a5, l), Seq::<Seq<char>>::empty()) == apply_line(a5, l));
            assert(a6 == apply_line(a5, odf[0]));
            assert(a6 == FmAcc { date_format: Some(f), ..a5 });
        },
    }
    let a7 = fold_lines(a6, oca);
    match m.created_at {
        None => {
            assert(a7 == a6);
        },
        Some(t) => {
            let l = key_created_at() + colon_sp() + t;
            lemma_line_kv(key_created_at(), t);
            lemma_unquote_plain(t);
            assert(oca.drop_first() =~= Seq::<Seq<char>>::empty());
            assert(fold_lines(apply_line(a6, l), Seq::<Seq<char>>::empty()) == apply_line(a6, l));
            assert(a7 == apply_line(a6, oca[0]));
            assert(a7 == FmAcc { created_at: Some(t), ..a6 });
        },
    }
    let a8 = fold_lines(a7, oua);
    match m.updated_at {
        None => {
            assert(a8 == a7);
        },
        Some(t) => {
            let l = key_updated_at() + colon_sp() + t;
            lemma_line_kv(key_updated_at(), t);
            lemma_unquote_plain(t);
            assert(oua.drop_first() =~= Seq::<Seq<char>>::empty());
            assert(fold_lines(apply_line(a7, l), Seq::<Seq<char>>::empty()) == apply_line(a7, l));
            assert(a8 == apply_line(a7, oua[0]));
            assert(a8 == FmAcc { updated_at: Some(t), ..a7 });
        },
    }
    assert(fold_lines(init_acc(), fm_lines_of(m)) == a8);
    assert(a8.languages == m.languages);
    assert(m.languages.len() >= 1);
    assert(finish_acc(a8) =~= m);
}

/// A body text that the section codec carries losslessly: nothing trimmed
/// away at its ends, and no `#` that the header scanner could take for a
/// section heading.
pub open spec fn wf_text(t: Seq<char>) -> bool {
    trim_stable(t) && no_char(t, '#')
}

pub open spec fn correction_word() -> Seq<char> {
    seq!['C', 'o', 'r', 'r', 'e', 'c', 't', 'i', 'o', 'n']
}

pub open spec fn translation_word() -> Seq<char> {
    seq!['T', 'r', 'a', 'n', 's', 'l', 'a', 't', 'i', 'o', 'n']
}

/// An entry that the file format carries losslessly: well-formed metadata
/// whose codes do not collide with the reserved legacy labels, body texts
/// the section codec keeps, and translations only for declared languages,
/// each non-empty (an empty one is parsed back as "not yet produced").
pub open spec fn wf_entry(e: crate::meta::EntryView) -> bool {
    wf_meta(e.meta) && wf_text(e.original) && (forall|i: int|
        0 <= i < e.meta.languages.len() ==> !is_prefix(#[trigger] e.meta.languages[i], correction_word())
            && !is_prefix(e.meta.languages[i], translation_word())) && (forall|c: Seq<char>|
        #[trigger] e.translations.contains_key(c) ==> e.meta.languages.contains(c)
            && e.translations[c].len() > 0 && wf_text(e.translations[c]))
}

/// The last characters of the serialized sections: a newline after the
/// final text, preceded by that text (or, when it is empty, by its
/// header's padding).
pub proof fn lemma_sections_tail_chars(ls: Seq<Seq<char>>, tr: Map<Seq<char>, Seq<char>>)
    requires
        ls.len() >= 1,
        forall|i: int| 0 <= i < ls.len() ==> #[trigger] ls[i].len() > 0,
    ensures
        ({
            let d = crate::entry::sections_cat(ls, tr);
            let t = crate::entry::text_for(tr, ls[ls.len() - 1]);
            let c = ls[ls.len() - 1];
            d.len() >= 7 && d[d.len() - 1] == '\n' && (t.len() > 0 ==> d[d.len() - 2] == t[t.len()
                - 1]) && (t.len() == 0 ==> d[d.len() - 2] == '\n' && d[d.len() - 3] == '\n' && d[
                d.len() - 4] == c[c.len() - 1])
        }),
    decreases ls.len(),
{
    let d = crate::entry::sections_cat(ls, tr);
    if ls.len() == 1 {
        let c = ls[0];
        let t = crate::entry::text_for(tr, c);
        assert(d == seq!['\n'] + crate::entry::lang_header(c) + seq!['\n', '\n'] + t + seq!['\n']
            + crate::entry::sections_cat(ls.drop_first(), tr));
        assert(crate::entry::sections_cat(ls.drop_first(), tr) == Seq::<char>::empty());
        assert(d =~= seq!['\n'] + crate::entry::lang_header(c) + seq!['\n', '\n'] + t + seq!['\n']);
        assert(d.len() == 6 + c.len() + t.len());
        assert(d[d.len() - 1] == '\n');
        if t.len() > 0 {
            assert(d[d.len() - 2] == t[t.len() - 1]);
        } else {
            assert(d[d.len() - 2] == '\n');
            assert(d[d.len() - 3] == '\n');
            assert(d[d.len() - 4] == crate::entry::lang_header(c)[c.len() as int + 1]);
            assert(crate::entry::lang_header(c)[c.len() as int + 1] == c[c.len() - 1]);
        }
    } else {
        let rest = ls.drop_first();
        lemma_sections_tail_chars(rest, tr);
        let d2 = crate::entry::sections_cat(rest, tr);
        let chunk = seq!['\n'] + crate::entry::lang_header(ls[0]) + seq!['\n', '\n']
            + crate::entry::text_for(tr, ls[0]) + seq!['\n'];
        assert(d =~= chunk + d2);
        assert(rest[rest.len() - 1] == ls[ls.len() - 1]);
        assert(d.len() == chunk.len() + d2.len());
        assert(d[d.len() - 1] == d2[d2.len() - 1]);
        assert(d[d.len() - 2] == d2[d2.len() - 2]);
        assert(d[d.len() - 3] == d2[d2.len() - 3]);
        assert(d[d.len() - 4] == d2[d2.len() - 4]);
    }
}

/// A legacy header `# <word>` occurs nowhere in the serialized sections
/// when no declared code starts with the word.
pub proof fn lemma_sections_free_of(ls: Seq<Seq<char>>, tr: Map<Seq<char>, Seq<char>>, w: Seq<char>)
    requires
        forall|i: int| 0 <= i < ls.len() ==> wf_code(#[trigger] ls[i]),
        forall|i: int| 0 <= i < ls.len() ==> no_char(
            crate::entry::text_for(tr, #[trigger] ls[i]),
            '#',
        ),
        no_char(w, '\n'),
        forall|i: int| 0 <= i < ls.len() ==> !is_prefix(#[trigger] ls[i], w),
    ensures
        forall|j: int| !is_at(crate::entry::sections_cat(ls, tr), seq!['#', ' '] + w, j),
    decreases ls.len(),
{
    let d = crate::entry::sections_cat(ls, tr);
    let n = seq!['#', ' '] + w;
    if ls.len() == 0 {
        assert forall|j: int| !is_at(d, n, j) by {
            assert(d.len() == 0);
            assert(n.len() >= 2);
        }
    } else {
        let c0 = ls[0];
        let t0 = crate::entry::text_for(tr, ls[0]);
        let rest = ls.drop_first();
        lemma_sections_free_of(rest, tr, w);
        let d2 = crate::entry::sections_cat(rest, tr);
        let chunk = seq!['\n'] + crate::entry::lang_header(c0) + seq!['\n', '\n'] + t0 + seq!['\n'];
        assert(d =~= chunk + d2);
        let cl = chunk.len() as int;
        assert(cl == 6 + c0.len() + t0.len());
        assert forall|j: int| !is_at(d, n, j) by {
            if is_at(d, n, j) {
                assert(d.subrange(j, j + n.len() as int) == n);
                assert(d[j] == n[0]);
                assert(n[0] == '#');
                if j >= cl {
                    lemma_is_at_right(chunk, d2, n, j - cl);
                    assert(is_at(d2, n, j - cl));
                    assert(false);
                } else {
                    assert(d[j] == chunk[j]);
                    if j == 1 {
                        // the needle would have to spell the word at the
                        // first header
                        if w.len() <= c0.len() {
                            assert(c0.subrange(0, w.len() as int) =~= w) by {
                                assert forall|l: int| 0 <= l < w.len() implies c0[l] == w[l] by {
                                    assert(d[3 + l] == chunk[3 + l]);
                                    assert(chunk[3 + l] == crate::entry::lang_header(c0)[2 + l]);
                                    assert(crate::entry::lang_header(c0)[2 + l] == c0[l]);
                                    assert(d[j + 2 + l] == n[2 + l]);
                                    assert(n[2 + l] == w[l]);
                                }
                            }
                            assert(is_prefix(c0, w));
                            assert(false);
                        } else {
                            let l = c0.len() as int;
                            assert(d[j + 2 + l] == n[2 + l]);
                            assert(n[2 + l] == w[l]);
                            assert(d[3 + l] == chunk[3 + l]);
                            assert(chunk[3 + l] == '\n');
                            assert(false);
                        }
                    } else {
                        // no other position in the chunk holds a `#`
                        assert(chunk[j] != '#') by {
                            if j == 0 || j == 2 + c0.len() + 1 || j == 2 + c0.len() + 2 || j == cl
                                - 1 {
                            } else if 3 <= j < 3 + c0.len() {
                                assert(chunk[j] == crate::entry::lang_header(c0)[j - 1]);
                                assert(crate::entry::lang_header(c0)[j - 1] == c0[j - 3]);
                            } else if 5 + c0.len() <= j < 5 + c0.len() + t0.len() {
                                assert(chunk[j] == t0[j - 5 - c0.len()]);
                            } else if j == 2 {
                                assert(chunk[2] == crate::entry::lang_header(c0)[1]);
                            }
                        }
                        assert(false);
                    }
                }
            }
        }
    }
}

/// The first occurrence of a declared language's header line is its own
/// section's header, and what follows it is that section and the rest.
pub proof fn lemma_first_header(
    w_pre: Seq<char>,
    ls: Seq<Seq<char>>,
    tr: Map<Seq<char>, Seq<char>>,
    k: int,
)
    requires
        forall|i: int| 0 <= i < ls.len() ==> wf_code(#[trigger] ls[i]),
        forall|i: int| 0 <= i < ls.len() ==> no_char(
            crate::entry::text_for(tr, #[trigger] ls[i]),
            '#',
        ),
        forall|i: int, j: int| 0 <= i < j < ls.len() ==> !is_prefix(#[trigger] ls[i], #[trigger] ls[j]),
        0 <= k < ls.len(),
        forall|j: int|
            0 <= j < w_pre.len() ==> !is_at(
                w_pre + crate::entry::sections_cat(ls, tr),
                crate::entry::lang_header(ls[k]),
                j,
            ),
    ensures
        ({
            let s = w_pre + crate::entry::sections_cat(ls, tr);
            let h = crate::entry::lang_header(ls[k]);
            first_at(s, h) matches Some(p) && 0 <= p && p + h.len() <= s.len() && s.skip(
                p + h.len() as int,
            ) == seq!['\n', '\n'] + crate::entry::text_for(tr, ls[k]) + seq!['\n']
                + crate::entry::sections_cat(ls.skip(k + 1), tr)
        }),
    decreases k,
{
    let s = w_pre + crate::entry::sections_cat(ls, tr);
    let h = crate::entry::lang_header(ls[k]);
    let c0 = ls[0];
    let t0 = crate::entry::text_for(tr, ls[0]);
    let rest = ls.drop_first();
    let d2 = crate::entry::sections_cat(rest, tr);
    let chunk = seq!['\n'] + crate::entry::lang_header(c0) + seq!['\n', '\n'] + t0 + seq!['\n'];
    assert(crate::entry::sections_cat(ls, tr) =~= chunk + d2);
    let wl = w_pre.len() as int;
    if k == 0 {
        let p = wl + 1;
        assert(s =~= w_pre + chunk + d2);
        assert(is_at(s, h, p)) by {
            assert(s.subrange(p, p + h.len() as int) =~= h) by {
                assert forall|l: int| 0 <= l < h.len() implies s[p + l] == h[l] by {
                    assert(s[p + l] == chunk[1 + l]);
                    assert(chunk[1 + l] == crate::entry::lang_header(c0)[l]);
                }
            }
        }
        assert forall|j: int| 0 <= j < p implies !is_at(s, h, j) by {
            if is_at(s, h, j) {
                assert(s.subrange(j, j + h.len() as int) == h);
                assert(s[j] == h[0]);
                assert(h[0] == '#');
                assert(j == wl);
                assert(s[wl] == chunk[0]);
                assert(chunk[0] == '\n');
                assert(false);
            }
        }
        lemma_first_at_is(s, h, p);
        assert(s.skip(p + h.len() as int) =~= seq!['\n', '\n'] + t0 + seq!['\n'] + d2);
        assert(ls.skip(1) =~= rest);
        assert(crate::entry::sections_cat(ls.skip(k + 1), tr) == d2);
    } else {
        let w2 = w_pre + chunk;
        assert(s =~= w2 + d2);
        let w2l = w2.len() as int;
        let cl = chunk.len() as int;
        assert(cl == 6 + c0.len() + t0.len());
        let ck = ls[k];
        assert(wf_code(ck));
        assert forall|j: int| 0 <= j < w2l implies !is_at(w2 + d2, h, j) by {
            if is_at(w2 + d2, h, j) {
                assert(s =~= w2 + d2);
                assert(is_at(s, h, j)) by {
                    assert(s.subrange(j, j + h.len() as int) == (w2 + d2).subrange(
                        j,
                        j + h.len() as int,
                    ));
                }
                assert(s[j] == h[0]);
                assert(h[0] == '#');
                if j < wl {
                    assert(false);
                } else {
                    let jj = j - wl;
                    assert(s[j] == chunk[jj]);
                    if jj == 1 {
                        if ck.len() <= c0.len() {
                            assert(c0.subrange(0, ck.len() as int) =~= ck) by {
                                assert forall|l: int| 0 <= l < ck.len() implies c0[l] == ck[l] by {
                                    assert(s[j + 2 + l] == chunk[3 + l]);
                                    assert(chunk[3 + l] == crate::entry::lang_header(c0)[2 + l]);
                                    assert(crate::entry::lang_header(c0)[2 + l] == c0[l]);
                                    assert(s[j + 2 + l] == h[2 + l]);
                                    assert(h[2 + l] == ck[l]);
                                }
                            }
                            assert(is_prefix(c0, ck));
                            assert(false);
                        } else {
                            let l = c0.len() as int;
                            assert(s[j + 2 + l] == h[2 + l]);
                            assert(h[2 + l] == ck[l]);
                            assert(s[j + 2 + l] == chunk[3 + l]);
                            assert(chunk[3 + l] == '\n');
                            assert(false);
                        }
                    } else {
                        assert(chunk[jj] != '#') by {
                            if jj == 0 || jj == 2 + c0.len() + 1 || jj == 2 + c0.len() + 2 || jj
                                == cl - 1 {
                            } else if 3 <= jj < 3 + c0.len() {
                                assert(chunk[jj] == crate::entry::lang_header(c0)[jj - 1]);
                                assert(crate::entry::lang_header(c0)[jj - 1] == c0[jj - 3]);
                            } else if 5 + c0.len() <= jj < 5 + c0.len() + t0.len() {
                                assert(chunk[jj] == t0[jj - 5 - c0.len()]);
                            } else if jj == 2 {
                                assert(chunk[2] == crate::entry::lang_header(c0)[1]);
                            }
                        }
                        assert(false);
                    }
                }
            }
        }
        assert(rest[k - 1] == ls[k]);
        lemma_first_header(w2, rest, tr, k - 1);
        let s2 = w2 + d2;
        assert(s == s2) by {
            assert(s =~= s2);
        }
        assert(crate::entry::lang_header(rest[k - 1]) == h);
        assert(rest.skip(k) =~= ls.skip(k + 1));
        assert(crate::entry::sections_cat(rest.skip(k), tr) == crate::entry::sections_cat(
            ls.skip(k + 1),
            tr,
        ));
        assert(crate::entry::text_for(tr, rest[k - 1]) == crate::entry::text_for(tr, ls[k]));
    }
}

/// Two texts with the same occurrences have the same first occurrence.
pub proof fn lemma_first_at_same(s1: Seq<char>, s2: Seq<char>, n: Seq<char>)
    requires
        forall|j: int| is_at(s1, n, j) <==> is_at(s2, n, j),
    ensures
        first_at(s1, n) == first_at(s2, n),
{
    lemma_find_from_props(s1, n, 0);
    lemma_find_from_props(s2, n, 0);
    match first_at(s1, n) {
        Some(p) => {
            assert(is_at(s2, n, p));
            lemma_first_at_is(s2, n, p);
        },
        None => {
            lemma_first_at_none(s2, n);
        },
    }
}

/// Appended trailing whitespace does not change a trim.
pub proof fn lemma_trim_append_ws(x: Seq<char>, w: Seq<char>)
    requires
        all_ws(w),
    ensures
        spec_trim(x + w) == spec_trim(x),
{
    crate::text::lemma_trim_decompose(x);
    let t = spec_trim(x);
    let (a, b) = choose|a: Seq<char>, b: Seq<char>| all_ws(a) && all_ws(b) && x == a + t + b;
    assert(all_ws(b + w)) by {
        assert forall|i: int| 0 <= i < (b + w).len() implies is_ws((b + w)[i]) by {
            if i < b.len() {
                assert((b + w)[i] == b[i]);
            } else {
                assert((b + w)[i] == w[i - b.len()]);
            }
        }
    }
    lemma_trim_padded(a, t, b + w);
    assert(a + t + (b + w) =~= x + w);
}

/// The section of a declared language in the serialized body holds exactly
/// its recorded text.
pub proof fn lemma_extract_lang(
    w_pre: Seq<char>,
    ls: Seq<Seq<char>>,
    tr: Map<Seq<char>, Seq<char>>,
    k: int,
)
    requires
        forall|i: int| 0 <= i < ls.len() ==> wf_code(#[trigger] ls[i]),
        forall|i: int| 0 <= i < ls.len() ==> wf_text(
            crate::entry::text_for(tr, #[trigger] ls[i]),
        ),
        forall|i: int, j: int| 0 <= i < j < ls.len() ==> !is_prefix(#[trigger] ls[i], #[trigger] ls[j]),
        0 <= k < ls.len(),
        forall|j: int|
            0 <= j < w_pre.len() ==> !is_at(
                w_pre + crate::entry::sections_cat(ls, tr),
                crate::entry::lang_header(ls[k]),
                j,
            ),
    ensures
        crate::section::spec_extract_section(
            w_pre + crate::entry::sections_cat(ls, tr),
            crate::entry::lang_header(ls[k]),
        ) == crate::entry::text_for(tr, ls[k]),
{
    let s = w_pre + crate::entry::sections_cat(ls, tr);
    let h = crate::entry::lang_header(ls[k]);
    let t = crate::entry::text_for(tr, ls[k]);
    assert(no_char(t, '#') && trim_stable(t));
    lemma_first_header(w_pre, ls, tr, k);
    let p = first_at(s, h).unwrap();
    let after = s.skip(p + h.len() as int);
    let d2 = crate::entry::sections_cat(ls.skip(k + 1), tr);
    assert(after == seq!['\n', '\n'] + t + seq!['\n'] + d2);
    let hm = crate::section::heading_mark();
    if k + 1 < ls.len() {
        let ck1 = ls.skip(k + 1)[0];
        assert(ls.skip(k + 1).len() >= 1);
        let chunk = seq!['\n'] + crate::entry::lang_header(ck1) + seq!['\n', '\n']
            + crate::entry::text_for(tr, ls.skip(k + 1)[0]) + seq!['\n'];
        assert(d2 =~= chunk + crate::entry::sections_cat(ls.skip(k + 1).drop_first(), tr));
        assert(d2[0] == '\n' && d2[1] == '#' && d2[2] == ' ') by {
            assert(d2[0] == chunk[0]);
            assert(d2[1] == chunk[1]);
            assert(d2[2] == chunk[2]);
            assert(chunk[1] == crate::entry::lang_header(ck1)[0]);
            assert(chunk[2] == crate::entry::lang_header(ck1)[1]);
        }
        let q = 3 + t.len() as int;
        assert(is_at(after, hm, q)) by {
            assert(after[q] == d2[0]);
            assert(after[q + 1] == d2[1]);
            assert(after[q + 2] == d2[2]);
            assert(after.subrange(q, q + 3) =~= hm);
        }
        assert forall|j: int| 0 <= j < q implies !is_at(after, hm, j) by {
            if is_at(after, hm, j) {
                assert(after.subrange(j, j + 3) == hm);
                assert(after[j + 1] == hm[1]);
                assert(hm[1] == '#');
                let r = j + 1;
                assert(0 <= r <= q);
                assert(after[r] != '#') by {
                    if r == 0 || r == 1 || r == 2 + t.len() || r == q {
                    } else {
                        assert(after[r] == t[r - 2]);
                    }
                }
                assert(false);
            }
        }
        lemma_first_at_is(after, hm, q);
        assert(crate::section::spec_find_next_heading(after) == Some(q + 1));
        let span = after.take(q + 1);
        assert(span =~= seq!['\n', '\n'] + t + seq!['\n', '\n']);
        lemma_trim_padded(seq!['\n', '\n'], t, seq!['\n', '\n']);
        assert(spec_trim(span) == t);
    } else {
        assert(ls.skip(k + 1).len() == 0);
        assert(d2 == Seq::<char>::empty());
        assert(after =~= seq!['\n', '\n'] + t + seq!['\n']);
        assert forall|j: int| !is_at(after, hm, j) by {
            if is_at(after, hm, j) {
                assert(after.subrange(j, j + 3) == hm);
                assert(after[j + 1] == hm[1]);
                assert(hm[1] == '#');
                let r = j + 1;
                assert(0 <= r < after.len());
                assert(after[r] != '#') by {
                    if r == 0 || r == 1 || r == 2 + t.len() {
                    } else {
                        assert(after[r] == t[r - 2]);
                    }
                }
                assert(false);
            }
        }
        lemma_first_at_none(after, hm);
        assert(crate::section::spec_find_next_heading(after) is None);
        lemma_trim_padded(seq!['\n', '\n'], t, seq!['\n']);
        assert(spec_trim(after) == t);
    }
}

/// The `# Original` section of the serialized body holds exactly the
/// original text.
pub proof fn lemma_extract_original(
    orig: Seq<char>,
    ls: Seq<Seq<char>>,
    tr: Map<Seq<char>, Seq<char>>,
)
    requires
        wf_text(orig),
        ls.len() >= 1,
        forall|i: int| 0 <= i < ls.len() ==> wf_code(#[trigger] ls[i]),
    ensures
        crate::section::spec_extract_section(
            crate::entry::header_original() + seq!['\n', '\n'] + orig + seq!['\n']
                + crate::entry::sections_cat(ls, tr),
            crate::entry::header_original(),
        ) == orig,
{
    let ho = crate::entry::header_original();
    let d = crate::entry::sections_cat(ls, tr);
    let s = ho + seq!['\n', '\n'] + orig + seq!['\n'] + d;
    assert(is_at(s, ho, 0)) by {
        assert(s.subrange(0, 10) =~= ho);
    }
    lemma_first_at_is(s, ho, 0);
    let after = s.skip(10);
    assert(after =~= seq!['\n', '\n'] + orig + seq!['\n'] + d);
    let chunk = seq!['\n'] + crate::entry::lang_header(ls[0]) + seq!['\n', '\n']
        + crate::entry::text_for(tr, ls[0]) + seq!['\n'];
    assert(d =~= chunk + crate::entry::sections_cat(ls.drop_first(), tr));
    assert(d[0] == '\n' && d[1] == '#' && d[2] == ' ') by {
        assert(d[0] == chunk[0]);
        assert(d[1] == chunk[1]);
        assert(d[2] == chunk[2]);
        assert(chunk[1] == crate::entry::lang_header(ls[0])[0]);
        assert(chunk[2] == crate::entry::lang_header(ls[0])[1]);
    }
    let hm = crate::section::heading_mark();
    let q = 3 + orig.len() as int;
    assert(is_at(after, hm, q)) by {
        assert(after[q] == d[0]);
        assert(after[q + 1] == d[1]);
        assert(after[q + 2] == d[2]);
        assert(after.subrange(q, q + 3) =~= hm);
    }
    assert forall|j: int| 0 <= j < q implies !is_at(after, hm, j) by {
        if is_at(after, hm, j) {
            assert(after.subrange(j, j + 3) == hm);
            assert(after[j + 1] == hm[1]);
            assert(hm[1] == '#');
            let r = j + 1;
            assert(0 <= r <= q);
            assert(after[r] != '#') by {
                if r == 0 || r == 1 || r == 2 + orig.len() || r == q {
                } else {
                    assert(after[r] == orig[r - 2]);
                }
            }
            assert(false);
        }
    }
    lemma_first_at_is(after, hm, q);
    assert(crate::section::spec_find_next_heading(after) == Some(q + 1));
    let span = after.take(q + 1);
    assert(span =~= seq!['\n', '\n'] + orig + seq!['\n', '\n']);
    lemma_trim_padded(seq!['\n', '\n'], orig, seq!['\n', '\n']);
    assert(spec_trim(span) == orig);
}

/// Trimming trailing whitespace off the body changes no section: headers
/// and section-ending marks live among non-whitespace text.
pub proof fn lemma_extract_drop_trailing(c_full: Seq<char>, h: Seq<char>)
    requires
        h.len() >= 3,
        h[0] == '#',
        !is_ws(h[h.len() - 1]),
        crate::text::drop_trailing_ws(c_full).len() > 0 ==> crate::text::drop_trailing_ws(c_full)[
            crate::text::drop_trailing_ws(c_full).len() - 1] != '#',
    ensures
        crate::section::spec_extract_section(crate::text::drop_trailing_ws(c_full), h)
            == crate::section::spec_extract_section(c_full, h),
{
    let b = crate::text::drop_trailing_ws(c_full);
    crate::text::lemma_drop_trailing_ws_form(c_full);
    crate::text::lemma_drop_trailing_ws_len(c_full);
    let m = b.len() as int;
    assert forall|j: int| is_at(c_full, h, j) <==> is_at(b, h, j) by {
        if is_at(c_full, h, j) {
            assert(c_full.subrange(j, j + h.len() as int) == h);
            assert(c_full[j + h.len() - 1] == h[h.len() - 1]);
            if j + h.len() > m {
                assert(is_ws(c_full[j + h.len() - 1]));
                assert(false);
            }
            lemma_is_at_take(c_full, m, h, j);
            assert(is_at(b, h, j));
        }
        if is_at(b, h, j) {
            lemma_is_at_take(c_full, m, h, j);
        }
    }
    lemma_first_at_same(b, c_full, h);
    lemma_find_from_props(c_full, h, 0);
    let hm = crate::section::heading_mark();
    match first_at(c_full, h) {
        None => {},
        Some(p) => {
            assert(is_at(c_full, h, p));
            assert(is_at(b, h, p));
            assert(p + h.len() <= m);
            let after_b = b.skip(p + h.len() as int);
            let after_c = c_full.skip(p + h.len() as int);
            let m2 = m - p - h.len() as int;
            assert(after_b =~= after_c.take(m2));
            assert forall|j: int| m2 <= j < after_c.len() implies is_ws(#[trigger] after_c[j]) by {
                assert(after_c[j] == c_full[p + h.len() + j]);
            }
            assert forall|j: int| is_at(after_c, hm, j) <==> is_at(after_b, hm, j) by {
                if is_at(after_c, hm, j) {
                    assert(after_c.subrange(j, j + 3) == hm);
                    assert(after_c[j + 1] == hm[1]);
                    assert(hm[1] == '#');
                    assert(!is_ws('#'));
                    assert(j + 1 < m2);
                    if j + 3 > m2 {
                        assert(j + 2 == m2);
                        assert(after_c[j + 1] == c_full[m - 1]);
                        assert(b[m - 1] == c_full[m - 1]);
                        assert(false);
                    }
                    lemma_is_at_take(after_c, m2, hm, j);
                    assert(after_c.take(m2) == after_b);
                }
                if is_at(after_b, hm, j) {
                    assert(j + 3 <= after_b.len());
                    lemma_is_at_take(after_c, m2, hm, j);
                    assert(after_c.take(m2) == after_b);
                }
            }
            lemma_first_at_same(after_b, after_c, hm);
            lemma_find_from_props(after_c, hm, 0);
            match first_at(after_c, hm) {
                None => {
                    let wtail = after_c.skip(m2);
                    assert(all_ws(wtail)) by {
                        assert(forall|i: int| 0 <= i < wtail.len() ==> wtail[i] == after_c[m2 + i]);
                    }
                    assert(after_c =~= after_b + wtail);
                    lemma_trim_append_ws(after_b, wtail);
                    assert(spec_trim(after_c) == spec_trim(after_b));
                },
                Some(q) => {
                    assert(is_at(after_b, hm, q));
                    assert(q + 3 <= m2);
                    assert(after_b.take(q + 1) =~= after_c.take(q + 1));
                },
            }
        },
    }
}

/// Collecting the per-language sections of the serialized body yields the
/// recorded translations for the declared languages.
pub proof fn lemma_collect_restrict(
    ls: Seq<Seq<char>>,
    tr: Map<Seq<char>, Seq<char>>,
    body: Seq<char>,
)
    requires
        forall|i: int|
            0 <= i < ls.len() ==> crate::section::spec_extract_section(
                body,
                crate::entry::lang_header(#[trigger] ls[i]),
            ) == crate::entry::text_for(tr, ls[i]),
        forall|c: Seq<char>| #[trigger] tr.contains_key(c) ==> tr[c].len() > 0,
    ensures
        crate::entry::collect_translations(ls, body) == tr.restrict(
            Set::new(|c: Seq<char>| ls.contains(c)),
        ),
    decreases ls.len(),
{
    let s_all = Set::new(|c: Seq<char>| ls.contains(c));
    if ls.len() == 0 {
        assert(crate::entry::collect_translations(ls, body) =~= tr.restrict(s_all)) by {
            assert(forall|c: Seq<char>| !ls.contains(c));
        }
    } else {
        let c0 = ls[0];
        let rest = ls.drop_first();
        assert forall|i: int|
            0 <= i < rest.len() implies crate::section::spec_extract_section(
            body,
            crate::entry::lang_header(#[trigger] rest[i]),
        ) == crate::entry::text_for(tr, rest[i]) by {
            assert(rest[i] == ls[i + 1]);
        }
        lemma_collect_restrict(rest, tr, body);
        let s_rest = Set::new(|c: Seq<char>| rest.contains(c));
        assert forall|x: Seq<char>| #[trigger] ls.contains(x) <==> (x == c0 || rest.contains(
            x,
        )) by {
            if ls.contains(x) {
                let i = choose|i: int| 0 <= i < ls.len() && ls[i] == x;
                if i > 0 {
                    assert(rest[i - 1] == x);
                    assert(rest.contains(x));
                }
            }
            if x == c0 {
                assert(ls[0] == x);
            }
            if rest.contains(x) {
                let i = choose|i: int| 0 <= i < rest.len() && rest[i] == x;
                assert(ls[i + 1] == x);
            }
        }
        let t0 = crate::entry::text_for(tr, c0);
        assert(crate::section::spec_extract_section(body, crate::entry::lang_header(c0)) == t0);
        if tr.contains_key(c0) {
            assert(t0 == tr[c0]);
            assert(t0.len() > 0);
            assert(crate::entry::collect_translations(ls, body) == crate::entry::collect_translations(
                rest,
                body,
            ).insert(c0, t0));
            assert(tr.restrict(s_rest).insert(c0, tr[c0]) =~= tr.restrict(s_all));
        } else {
            assert(t0 == Seq::<char>::empty());
            assert(crate::entry::collect_translations(ls, body)
                == crate::entry::collect_translations(rest, body));
            assert(tr.restrict(s_rest) =~= tr.restrict(s_all));
        }
    }
}

/// A legacy label's header occurs nowhere in a serialized body whose codes
/// do not start with the label's word, so its section is empty.
pub proof fn lemma_legacy_extract_empty(
    orig: Seq<char>,
    ls: Seq<Seq<char>>,
    tr: Map<Seq<char>, Seq<char>>,
    w: Seq<char>,
)
    requires
        wf_text(orig),
        forall|i: int| 0 <= i < ls.len() ==> wf_code(#[trigger] ls[i]),
        forall|i: int| 0 <= i < ls.len() ==> no_char(
            crate::entry::text_for(tr, #[trigger] ls[i]),
            '#',
        ),
        no_char(w, '\n'),
        w.len() >= 1,
        w[0] != 'O',
        forall|i: int| 0 <= i < ls.len() ==> !is_prefix(#[trigger] ls[i], w),
    ensures
        crate::section::spec_extract_section(
            crate::entry::header_original() + seq!['\n', '\n'] + orig + seq!['\n']
                + crate::entry::sections_cat(ls, tr),
            seq!['#', ' '] + w,
        ) == Seq::<char>::empty(),
{
    let wc = crate::entry::header_original() + seq!['\n', '\n'] + orig + seq!['\n'];
    let d = crate::entry::sections_cat(ls, tr);
    let s = crate::entry::header_original() + seq!['\n', '\n'] + orig + seq!['\n'] + d;
    let n = seq!['#', ' '] + w;
    assert(s =~= wc + d);
    lemma_sections_free_of(ls, tr, w);
    let wl = wc.len() as int;
    assert forall|j: int| !is_at(s, n, j) by {
        if is_at(s, n, j) {
            assert(s.subrange(j, j + n.len() as int) == n);
            assert(s[j] == n[0]);
            assert(n[0] == '#');
            if j >= wl {
                assert(is_at(wc + d, n, j)) by {
                    assert((wc + d).subrange(j, j + n.len() as int) == s.subrange(
                        j,
                        j + n.len() as int,
                    ));
                }
                lemma_is_at_right(wc, d, n, j - wl);
                assert(is_at(d, n, j - wl));
                assert(false);
            } else if j == 0 {
                assert(s[2] == n[2]);
                assert(n[2] == w[0]);
                assert(s[2] == crate::entry::header_original()[2]);
                assert(crate::entry::header_original()[2] == 'O');
                assert(false);
            } else {
                assert(s[j] == wc[j]);
                assert(wc[j] != '#') by {
                    if 1 <= j < 10 {
                        assert(wc[j] == crate::entry::header_original()[j]);
                    } else if 12 <= j < 12 + orig.len() {
                        assert(wc[j] == orig[j - 12]);
                    }
                }
                assert(false);
            }
        }
    }
    lemma_first_at_none(s, n);
}

/// The round-trip law: for every well-formed entry, parsing its serialized
/// file reproduces the entry — identifier, title, date, mode, languages,
/// original text, and every recorded translation, exactly.
#[verifier::rlimit(100)]
pub proof fn lemma_entry_round_trip(e: crate::meta::EntryView)
    requires
        wf_entry(e),
    ensures
        crate::entry::spec_parse_entry(crate::entry::spec_serialize_entry(e)) == Some(e),
{
    let m = e.meta;
    let ls = m.languages;
    let tr = e.translations;
    let orig = e.original;
    let s = crate::entry::spec_serialize_entry(e);
    let d = crate::entry::sections_cat(ls, tr);
    let c_body = crate::entry::header_original() + seq!['\n', '\n'] + orig + seq!['\n'] + d;
    let body0 = seq!['\n'] + c_body;
    assert(s =~= crate::entry::spec_fm_block(m) + body0);
    // texts of declared languages are well-formed even when absent
    assert forall|i: int| 0 <= i < ls.len() implies wf_text(
        crate::entry::text_for(tr, #[trigger] ls[i]),
    ) by {
        if tr.contains_key(ls[i]) {
        } else {
            assert(crate::entry::text_for(tr, ls[i]) == Seq::<char>::empty());
        }
    }
    // frontmatter
    lemma_frontmatter_round_trip(m, body0);
    assert(spec_parse_frontmatter(s) == Some(m));
    // fence and body region
    lemma_fm_block_lines(m);
    lemma_fm_lines_good(m);
    let lines = fm_lines_of(m);
    let tail = dashes() + seq!['\n'] + body0;
    let rest = s.skip(3);
    assert(rest =~= seq!['\n'] + cat_nl(lines) + tail);
    assert(is_prefix(tail, dashes())) by {
        assert(tail.subrange(0, 3) =~= dashes());
    }
    assert(tail[3] == '\n');
    lemma_fence_end_of_serialized(lines, tail);
    let fpos = cat_nl(lines).len() as int;
    assert(fence_end(rest) == Some(fpos));
    assert(fpos + 4 < rest.len());
    assert(rest.skip(fpos + 4) =~= seq!['\n', '\n'] + c_body);
    let x = seq!['\n', '\n'] + c_body;
    assert(c_body[0] == crate::entry::header_original()[0]);
    assert(crate::entry::header_original()[0] == '#');
    crate::text::lemma_drop_leading_ws_skip(x, 2);
    assert(x.skip(2) =~= c_body);
    assert(spec_trim(x) == crate::text::drop_trailing_ws(c_body));
    let body = crate::entry::spec_body(s);
    assert(body == crate::text::drop_trailing_ws(c_body));
    // the kept prefix of the body ends in a text or code character
    assert forall|i: int| 0 <= i < ls.len() implies #[trigger] ls[i].len() > 0 by {
        assert(wf_code(ls[i]));
    }
    lemma_sections_tail_chars(ls, tr);
    let cn = c_body.len() as int;
    let t_last = crate::entry::text_for(tr, ls[ls.len() - 1]);
    let c_last = ls[ls.len() - 1];
    assert(c_body[cn - 1] == d[d.len() - 1]);
    assert(c_body[cn - 2] == d[d.len() - 2]);
    assert(c_body[cn - 3] == d[d.len() - 3]);
    assert(c_body[cn - 4] == d[d.len() - 4]);
    if t_last.len() > 0 {
        assert(c_body[cn - 1] == '\n');
        assert(c_body[cn - 2] == t_last[t_last.len() - 1]);
        assert(!is_ws(c_body[cn - 2]));
        crate::text::lemma_drop_trailing_ws_take(c_body, cn - 1);
        assert(body.len() == cn - 1);
        assert(body[body.len() - 1] == c_body.take(cn - 1)[cn - 2]);
        assert(body[body.len() - 1] != '#');
    } else {
        assert(c_body[cn - 1] == '\n' && c_body[cn - 2] == '\n' && c_body[cn - 3] == '\n');
        assert(c_body[cn - 4] == c_last[c_last.len() - 1]);
        assert(!is_ws(c_body[cn - 4]));
        crate::text::lemma_drop_trailing_ws_take(c_body, cn - 3);
        assert(body.len() == cn - 3);
        assert(body[body.len() - 1] == c_body.take(cn - 3)[cn - 4]);
        assert(body[body.len() - 1] != '#');
    }
    // original section
    lemma_extract_original(orig, ls, tr);
    lemma_extract_drop_trailing(c_body, crate::entry::header_original());
    assert(crate::section::spec_extract_section(body, crate::entry::header_original()) == orig);
    // language sections
    let wc = crate::entry::header_original() + seq!['\n', '\n'] + orig + seq!['\n'];
    assert(c_body =~= wc + d);
    let wl = wc.len() as int;
    assert forall|k: int|
        0 <= k < ls.len() implies crate::section::spec_extract_section(
        body,
        crate::entry::lang_header(#[trigger] ls[k]),
    ) == crate::entry::text_for(tr, ls[k]) by {
        let h = crate::entry::lang_header(ls[k]);
        let ck = ls[k];
        assert(wf_code(ck));
        assert forall|j: int| 0 <= j < wl implies !is_at(wc + d, h, j) by {
            if is_at(wc + d, h, j) {
                assert((wc + d).subrange(j, j + h.len() as int) == h);
                assert((wc + d)[j] == h[0]);
                assert(h[0] == '#');
                if j == 0 {
                    if ck.len() <= 8 {
                        assert(original_word().subrange(0, ck.len() as int) =~= ck) by {
                            assert forall|l: int| 0 <= l < ck.len() implies original_word()[l]
                                == ck[l] by {
                                assert((wc + d)[2 + l] == wc[2 + l]);
                                assert(wc[2 + l] == crate::entry::header_original()[2 + l]);
                                assert(crate::entry::header_original()[2 + l] == original_word()[
                                    l]);
                                assert((wc + d)[j + 2 + l] == h[2 + l]);
                                assert(h[2 + l] == ck[l]);
                            }
                        }
                        assert(is_prefix(original_word(), ck));
                        assert(false);
                    } else {
                        let l = 8int;
                        assert((wc + d)[j + 2 + l] == h[2 + l]);
                        assert(h[2 + l] == ck[l]);
                        assert((wc + d)[10] == wc[10]);
                        assert(wc[10] == '\n');
                        assert(false);
                    }
                } else {
                    assert((wc + d)[j] == wc[j]);
                    assert(wc[j] != '#') by {
                        if 1 <= j < 10 {
                            assert(wc[j] == crate::entry::header_original()[j]);
                        } else if 12 <= j < 12 + orig.len() {
                            assert(wc[j] == orig[j - 12]);
                        }
                    }
                    assert(false);
                }
            }
        }
        lemma_extract_lang(wc, ls, tr, k);
        assert(crate::section::spec_extract_section(wc + d, h) == crate::entry::text_for(
            tr,
            ls[k],
        ));
        assert(c_body == wc + d);
        assert(h.len() >= 3);
        assert(h[0] == '#');
        assert(h[h.len() - 1] == ck[ck.len() - 1]);
        assert(!is_ws(h[h.len() - 1]));
        lemma_extract_drop_trailing(c_body, h);
    }
    // translations
    assert forall|c: Seq<char>| #[trigger] tr.contains_key(c) implies tr[c].len() > 0 by {}
    lemma_collect_restrict(ls, tr, body);
    let s_all = Set::new(|c: Seq<char>| ls.contains(c));
    assert(tr.restrict(s_all) =~= tr) by {
        assert forall|c: Seq<char>| #[trigger] tr.dom().contains(c) implies s_all.contains(c) by {
            assert(tr.contains_key(c));
            assert(ls.contains(c));
        }
    }
    assert(crate::entry::collect_translations(ls, body) == tr);
    let parsed_tr = crate::entry::spec_entry_translations(m, body);
    if tr.dom() =~= Set::<Seq<char>>::empty() {
        assert(tr.dom() == Set::<Seq<char>>::empty());
        let w = if m.mode == crate::entry::mode_correction() {
            correction_word()
        } else {
            translation_word()
        };
        assert(crate::entry::legacy_label(m.mode) =~= seq!['#', ' '] + w);
        assert forall|i: int| 0 <= i < ls.len() implies !is_prefix(#[trigger] ls[i], w) by {}
        assert(w[0] != 'O');
        lemma_legacy_extract_empty(orig, ls, tr, w);
        lemma_extract_drop_trailing(c_body, seq!['#', ' '] + w);
        assert(crate::section::spec_extract_section(body, crate::entry::legacy_label(m.mode))
            == Seq::<char>::empty());
        assert(parsed_tr == tr);
    } else {
        assert(tr.dom() != Set::<Seq<char>>::empty()) by {
            if tr.dom() == Set::<Seq<char>>::empty() {
                assert(tr.dom() =~= Set::<Seq<char>>::empty());
            }
        }
        assert(parsed_tr == tr);
    }
    assert(crate::entry::spec_parse_entry(s) == Some(
        crate::meta::EntryView { meta: m, original: orig, translations: tr },
    ));
    assert(crate::meta::EntryView { meta: m, original: orig, translations: tr } =~~= e);
}

/// A title survives the round trip unchanged, however many `#`, `---`,
/// quote or backslash characters it contains: the only title shape the
/// format cannot carry is one holding a newline.
pub proof fn lemma_title_round_trip(e: crate::meta::EntryView)
    requires
        wf_entry(e),
    ensures
        crate::entry::spec_parse_entry(crate::entry::spec_serialize_entry(e)) matches Some(p)
            && p.meta.title == e.meta.title,
{
    lemma_entry_round_trip(e);
}

/// Parsing the frontmatter of a serialized block recovers the metadata,
/// whatever body text follows the block.
pub proof fn lemma_frontmatter_round_trip(m: MetaView, body: Seq<char>)
    requires
        wf_meta(m),
    ensures
        spec_parse_frontmatter(crate::entry::spec_fm_block(m) + body) == Some(m),
{
    lemma_fm_block_lines(m);
    lemma_fm_lines_good(m);
    let lines = fm_lines_of(m);
    let s = crate::entry::spec_fm_block(m) + body;
    let tail = dashes() + seq!['\n'] + body;
    assert(s =~= seq!['-', '-', '-'] + (seq!['\n'] + cat_nl(lines) + tail));
    assert(is_prefix(s, dashes())) by {
        assert(s.subrange(0, 3) =~= dashes());
    }
    let rest = s.skip(3);
    assert(rest =~= seq!['\n'] + cat_nl(lines) + tail);
    assert(is_prefix(tail, dashes())) by {
        assert(tail.subrange(0, 3) =~= dashes());
    }
    assert(tail[3] == '\n');
    lemma_fence_end_of_serialized(lines, tail);
    let fpos = cat_nl(lines).len() as int;
    assert(fence_end(rest) == Some(fpos));
    lemma_cat_nl_sep(lines);
    assert forall|i: int| 0 <= i < lines.len() implies #[trigger] lines[i].len() > 0 by {
        assert(good_line(lines[i]));
    }
    lemma_cat_sep_ends(lines);
    let cs = cat_sep(lines);
    assert(rest.take(fpos) =~= seq!['\n'] + cs);
    assert(spec_trim(rest.take(fpos)) == cs) by {
        assert(!is_ws(cs[0])) by {
            assert(good_line(lines[0]));
        }
        assert(trim_stable(cs));
        lemma_trim_padded(seq!['\n'], cs, Seq::empty());
        assert(seq!['\n'] + cs + Seq::<char>::empty() =~= seq!['\n'] + cs);
    }
    assert forall|i: int| 0 <= i < lines.len() implies no_char(#[trigger] lines[i], '\n') by {
        assert(good_line(lines[i]));
    }
    lemma_split_cat_sep(lines);
    lemma_fold_fm_lines(m);
    assert(spec_parse_frontmatter(s) == Some(m));
}
pub proof fn lemma_fence_position(lines: Seq<Seq<char>>, tail: Seq<char>)
    requires
        forall|i: int| 0 <= i < lines.len() ==> good_line(#[trigger] lines[i]),
        is_prefix(tail, dashes()),
        tail.len() >= 4,
        tail[3] == '\n',
    ensures
        ({
            let s = seq!['\n'] + cat_nl(lines) + tail;
            let fpos = cat_nl(lines).len() as int;
            is_at(s, nl_dashes_nl(), fpos) && forall|j: int|
                0 <= j < fpos ==> !is_at(s, nl_dashes(), j)
        }),
    decreases lines.len(),
{
    let s = seq!['\n'] + cat_nl(lines) + tail;
    let fpos = cat_nl(lines).len() as int;
    if lines.len() == 0 {
        assert(cat_nl(lines).len() == 0);
        assert(s =~= seq!['\n'] + tail);
        assert(s.subrange(0, 5) =~= nl_dashes_nl()) by {
            assert(tail.subrange(0, 3) == dashes());
            assert(tail[0] == dashes()[0] && tail[1] == dashes()[1] && tail[2] == dashes()[2]);
        }
        assert(is_at(s, nl_dashes_nl(), 0));
    } else {
        let l = lines[0];
        let rest = lines.drop_first();
        lemma_fence_position(rest, tail);
        let s2 = seq!['\n'] + cat_nl(rest) + tail;
        let d = 1 + l.len() as int;
        assert(cat_nl(lines) == l + seq!['\n'] + cat_nl(rest));
        assert(s =~= (seq!['\n'] + l) + s2);
        let a = seq!['\n'] + l;
        assert(a.len() == d);
        let f2 = cat_nl(rest).len() as int;
        assert(fpos == d + f2);
        assert(is_at(s, nl_dashes_nl(), fpos)) by {
            lemma_is_at_right(a, s2, nl_dashes_nl(), f2);
            assert(is_at(s2, nl_dashes_nl(), f2));
        }
        assert forall|j: int| 0 <= j < fpos implies !is_at(s, nl_dashes(), j) by {
            if is_at(s, nl_dashes(), j) {
                assert(s.subrange(j, j + 4) == nl_dashes());
                assert(s[j] == '\n' && s[j + 1] == '-');
                if j == 0 {
                    assert(s[1] == a[1] && a[1] == l[0]);
                    assert(l[0] == '-');
                    assert(false);
                } else if j < d {
                    assert(s[j] == a[j] && a[j] == l[j - 1]);
                    assert(l[j - 1] == '\n');
                    assert(false);
                } else {
                    lemma_is_at_right(a, s2, nl_dashes(), j - d);
                    assert(is_at(s2, nl_dashes(), j - d));
                    assert(j - d < f2);
                    assert(false);
                }
            }
        }
    }
}

/// The closing fence of a serialized block is found exactly at the end of
/// its lines, whatever follows the block.
pub proof fn lemma_fence_end_of_serialized(lines: Seq<Seq<char>>, tail: Seq<char>)
    requires
        forall|i: int| 0 <= i < lines.len() ==> good_line(#[trigger] lines[i]),
        is_prefix(tail, dashes()),
        tail.len() >= 4,
        tail[3] == '\n',
    ensures
        fence_end(seq!['\n'] + cat_nl(lines) + tail) == Some(cat_nl(lines).len() as int),
{
    let s = seq!['\n'] + cat_nl(lines) + tail;
    let fpos = cat_nl(lines).len() as int;
    lemma_fence_position(lines, tail);
    assert forall|j: int| 0 <= j < fpos implies !is_at(s, nl_dashes_nl(), j) by {
        if is_at(s, nl_dashes_nl(), j) {
            assert(s.subrange(j, j + 5) == nl_dashes_nl());
            assert(s.subrange(j, j + 4) =~= nl_dashes()) by {
                assert(forall|i: int| 0 <= i < 4 ==> s.subrange(j, j + 4)[i] == s[#[trigger] (j
                    + i)]);
                assert(forall|i: int| 0 <= i < 5 ==> s.subrange(j, j + 5)[i] == s[#[trigger] (j
                    + i)]);
            }
            assert(is_at(s, nl_dashes(), j));
            assert(false);
        }
    }
    lemma_first_at_is(s, nl_dashes_nl(), fpos);
}

} // verus!
