//! Character-level text scanning: substring occurrence, first-occurrence
//! search, and whitespace trimming.  All executable functions here are
//! verified against spec functions over `Seq<char>`; the rest of the crate
//! states its contracts in terms of these specs.

use vstd::prelude::*;
use vstd::string::*;

verus! {

use crate::is_ws;

/// Every character of `s` is whitespace.
pub open spec fn all_ws(s: Seq<char>) -> bool {
    forall|i: int| 0 <= i < s.len() ==> is_ws(#[trigger] s[i])
}

/// `s` neither starts nor ends with whitespace (trimming it is a no-op).
pub open spec fn trim_stable(s: Seq<char>) -> bool {
    s.len() == 0 || (!is_ws(s[0]) && !is_ws(s[s.len() - 1]))
}

/// `needle` occurs in `hay` starting at position `i`.
pub open spec fn is_at(hay: Seq<char>, needle: Seq<char>, i: int) -> bool {
    0 <= i && i + needle.len() <= hay.len() && hay.subrange(i, i + needle.len() as int)
        == needle
}

/// `needle` occurs somewhere in `hay`.
pub open spec fn contains_seq(hay: Seq<char>, needle: Seq<char>) -> bool {
    exists|i: int| is_at(hay, needle, i)
}

/// `p` is a prefix of `s`.
pub open spec fn is_prefix(s: Seq<char>, p: Seq<char>) -> bool {
    is_at(s, p, 0)
}

/// Position of the first occurrence of `needle` in `hay` at or after `from`.
pub open spec fn find_from(hay: Seq<char>, needle: Seq<char>, from: int) -> Option<int>
    decreases hay.len() + 1 - from,
{
    if from < 0 || from + needle.len() > hay.len() {
        None
    } else if is_at(hay, needle, from) {
        Some(from)
    } else {
        find_from(hay, needle, from + 1)
    }
}

/// First occurrence of `needle` in `hay`, if any.
pub open spec fn first_at(hay: Seq<char>, needle: Seq<char>) -> Option<int> {
    find_from(hay, needle, 0)
}

/// `find_from` returns the least occurrence position at or after `from`,
/// and `None` exactly when there is none.
pub proof fn lemma_find_from_props(hay: Seq<char>, needle: Seq<char>, from: int)
    requires
        0 <= from,
    ensures
        match find_from(hay, needle, from) {
            Some(k) => from <= k && is_at(hay, needle, k) && forall|j: int|
                from <= j < k ==> !is_at(hay, needle, j),
            None => forall|j: int| from <= j ==> !is_at(hay, needle, j),
        },
    decreases hay.len() + 1 - from,
{
    if from + needle.len() > hay.len() {
        assert forall|j: int| from <= j implies !is_at(hay, needle, j) by {}
    } else if is_at(hay, needle, from) {
    } else {
        lemma_find_from_props(hay, needle, from + 1);
    }
}

/// If `needle` occurs at `k` and nowhere earlier, the first occurrence is `k`.
pub proof fn lemma_first_at_is(hay: Seq<char>, needle: Seq<char>, k: int)
    requires
        is_at(hay, needle, k),
        forall|j: int| 0 <= j < k ==> !is_at(hay, needle, j),
    ensures
        first_at(hay, needle) == Some(k),
{
    lemma_find_from_props(hay, needle, 0);
    match first_at(hay, needle) {
        Some(m) => {
            if m < k {
                assert(!is_at(hay, needle, m));
            }
            if m > k {
                assert(!is_at(hay, needle, k));
            }
        },
        None => {
            assert(!is_at(hay, needle, k));
        },
    }
}

/// If `needle` occurs nowhere in `hay`, the search finds nothing.
pub proof fn lemma_first_at_none(hay: Seq<char>, needle: Seq<char>)
    requires
        forall|j: int| 0 <= j ==> !is_at(hay, needle, j),
    ensures
        first_at(hay, needle) is None,
{
    lemma_find_from_props(hay, needle, 0);
}

/// A single-character needle occurs at `j` exactly when the character
/// stands at `j`.
pub proof fn lemma_is_at_single(s: Seq<char>, c: char, j: int)
    ensures
        is_at(s, seq![c], j) <==> 0 <= j < s.len() && s[j] == c,
{
    if 0 <= j < s.len() && s[j] == c {
        assert(s.subrange(j, j + 1) =~= seq![c]);
    }
    if is_at(s, seq![c], j) {
        assert(s.subrange(j, j + 1)[0] == s[j]);
    }
}

/// `s` split at every occurrence of `c`; the separators are consumed, and
/// the result always has one more piece than there are separators.
pub open spec fn split_char(s: Seq<char>, c: char) -> Seq<Seq<char>>
    decreases s.len(),
{
    if s.len() == 0 {
        seq![Seq::<char>::empty()]
    } else {
        let rest = split_char(s.skip(1), c);
        if s[0] == c {
            seq![Seq::<char>::empty()] + rest
        } else {
            seq![seq![s[0]] + rest[0]] + rest.skip(1)
        }
    }
}

pub proof fn lemma_split_char_len(s: Seq<char>, c: char)
    ensures
        split_char(s, c).len() >= 1,
    decreases s.len(),
{
    if s.len() > 0 {
        lemma_split_char_len(s.skip(1), c);
    }
}

/// `split_char` in terms of the first separator position: no separator
/// yields the whole string, and a first separator at `i` yields the prefix
/// before it followed by the split of the remainder.
pub proof fn lemma_split_char_first(s: Seq<char>, c: char)
    ensures
        match first_at(s, seq![c]) {
            None => split_char(s, c) == seq![s],
            Some(i) => 0 <= i < s.len() && s[i] == c && split_char(s, c) == seq![s.take(i)]
                + split_char(s.skip(i + 1), c),
        },
    decreases s.len(),
{
    lemma_find_from_props(s, seq![c], 0);
    if s.len() == 0 {
        match first_at(s, seq![c]) {
            Some(i) => {
                lemma_is_at_single(s, c, i);
            },
            None => {
                assert(split_char(s, c) =~~= seq![s]);
            },
        }
    } else if s[0] == c {
        lemma_is_at_single(s, c, 0);
        lemma_first_at_is(s, seq![c], 0);
        assert(s.take(0) =~= Seq::<char>::empty());
        assert(s.skip(1) == s.skip(0int + 1));
        assert(split_char(s, c) == seq![s.take(0)] + split_char(s.skip(0int + 1), c));
    } else {
        let t = s.skip(1);
        lemma_split_char_first(t, c);
        lemma_split_char_len(t, c);
        assert forall|j: int| is_at(s, seq![c], j) implies (1 <= j < s.len() && is_at(
            t,
            seq![c],
            j - 1,
        )) by {
            lemma_is_at_single(s, c, j);
            lemma_is_at_single(t, c, j - 1);
        }
        assert forall|j: int| is_at(t, seq![c], j) implies is_at(s, seq![c], j + 1) by {
            lemma_is_at_single(t, c, j);
            lemma_is_at_single(s, c, j + 1);
        }
        match first_at(t, seq![c]) {
            None => {
                lemma_find_from_props(t, seq![c], 0);
                assert forall|j: int| !is_at(s, seq![c], j) by {
                    if is_at(s, seq![c], j) {
                        assert(is_at(t, seq![c], j - 1));
                    }
                }
                lemma_first_at_none(s, seq![c]);
                let rest = split_char(t, c);
                assert(rest == seq![t]);
                assert(rest[0] == t);
                assert(seq![s[0]] + t =~= s);
                assert(rest.skip(1) =~= Seq::<Seq<char>>::empty());
                assert(split_char(s, c) =~= seq![s]);
            },
            Some(i) => {
                lemma_find_from_props(t, seq![c], 0);
                assert forall|j: int| 0 <= j < i + 1 implies !is_at(s, seq![c], j) by {
                    if is_at(s, seq![c], j) {
                        assert(is_at(t, seq![c], j - 1));
                    }
                }
                assert(is_at(t, seq![c], i));
                assert(is_at(s, seq![c], i + 1));
                lemma_first_at_is(s, seq![c], i + 1);
                let rest = split_char(t, c);
                assert(rest == seq![t.take(i)] + split_char(t.skip(i + 1), c));
                assert(rest[0] == t.take(i));
                assert(seq![s[0]] + t.take(i) =~= s.take(i + 1));
                assert(rest.skip(1) =~= split_char(t.skip(i + 1), c));
                assert(t.skip(i + 1) =~= s.skip(i + 2));
                lemma_is_at_single(s, c, i + 1);
                assert(split_char(s, c) == seq![s.take(i + 1)] + split_char(s.skip(i + 2), c));
            },
        }
    }
}

/// `s` with its leading whitespace removed.
pub open spec fn drop_leading_ws(s: Seq<char>) -> Seq<char>
    decreases s.len(),
{
    if s.len() > 0 && is_ws(s[0]) {
        drop_leading_ws(s.skip(1))
    } else {
        s
    }
}

/// `s` with its trailing whitespace removed.
pub open spec fn drop_trailing_ws(s: Seq<char>) -> Seq<char>
    decreases s.len(),
{
    if s.len() > 0 && is_ws(s[s.len() - 1]) {
        drop_trailing_ws(s.take(s.len() - 1))
    } else {
        s
    }
}

/// `s` with surrounding whitespace removed.
pub open spec fn spec_trim(s: Seq<char>) -> Seq<char> {
    drop_trailing_ws(drop_leading_ws(s))
}

pub proof fn lemma_drop_leading_ws_skip(s: Seq<char>, k: int)
    requires
        0 <= k <= s.len(),
        forall|i: int| 0 <= i < k ==> is_ws(#[trigger] s[i]),
        k < s.len() ==> !is_ws(s[k]),
    ensures
        drop_leading_ws(s) == s.skip(k),
    decreases s.len(),
{
    if k == 0 {
        assert(s.skip(0) == s);
    } else {
        assert(is_ws(s[0]));
        lemma_drop_leading_ws_skip(s.skip(1), k - 1);
        assert(s.skip(1).skip(k - 1) == s.skip(k));
    }
}

pub proof fn lemma_drop_trailing_ws_take(s: Seq<char>, k: int)
    requires
        0 <= k <= s.len(),
        forall|i: int| k <= i < s.len() ==> is_ws(#[trigger] s[i]),
        k > 0 ==> !is_ws(s[k - 1]),
    ensures
        drop_trailing_ws(s) == s.take(k),
    decreases s.len(),
{
    if k == s.len() {
        assert(s.take(k as int) == s);
    } else {
        assert(is_ws(s[s.len() - 1]));
        lemma_drop_trailing_ws_take(s.take(s.len() - 1), k);
        assert(s.take(s.len() - 1).take(k) == s.take(k));
    }
}

/// Trimming a trim-stable core padded with whitespace on both sides
/// recovers the core.
pub proof fn lemma_trim_padded(a: Seq<char>, t: Seq<char>, b: Seq<char>)
    requires
        all_ws(a),
        all_ws(b),
        trim_stable(t),
    ensures
        spec_trim(a + t + b) == t,
{
    let s = a + t + b;
    if t.len() == 0 {
        assert(all_ws(s));
        lemma_drop_leading_ws_skip(s, s.len() as int);
        assert(s.skip(s.len() as int).len() == 0);
        lemma_drop_trailing_ws_take(s.skip(s.len() as int), 0);
        assert(spec_trim(s) =~= t);
    } else {
        assert(s[a.len() as int] == t[0]);
        lemma_drop_leading_ws_skip(s, a.len() as int);
        let u = s.skip(a.len() as int);
        assert(u =~= t + b);
        assert(u[t.len() - 1] == t[t.len() - 1]);
        lemma_drop_trailing_ws_take(u, t.len() as int);
        assert(u.take(t.len() as int) =~= t);
    }
}

/// `s` with every leading occurrence of `c` removed.
pub open spec fn drop_leading_char(s: Seq<char>, c: char) -> Seq<char>
    decreases s.len(),
{
    if s.len() > 0 && s[0] == c {
        drop_leading_char(s.skip(1), c)
    } else {
        s
    }
}

/// `s` with every trailing occurrence of `c` removed.
pub open spec fn drop_trailing_char(s: Seq<char>, c: char) -> Seq<char>
    decreases s.len(),
{
    if s.len() > 0 && s[s.len() - 1] == c {
        drop_trailing_char(s.take(s.len() - 1), c)
    } else {
        s
    }
}

pub proof fn lemma_drop_leading_char_skip(s: Seq<char>, c: char, k: int)
    requires
        0 <= k <= s.len(),
        forall|i: int| 0 <= i < k ==> s[i] == c,
        k < s.len() ==> s[k] != c,
    ensures
        drop_leading_char(s, c) == s.skip(k),
    decreases s.len(),
{
    if k == 0 {
        assert(s.skip(0) == s);
    } else {
        lemma_drop_leading_char_skip(s.skip(1), c, k - 1);
        assert(s.skip(1).skip(k - 1) == s.skip(k));
    }
}

pub proof fn lemma_drop_trailing_char_take(s: Seq<char>, c: char, k: int)
    requires
        0 <= k <= s.len(),
        forall|i: int| k <= i < s.len() ==> s[i] == c,
        k > 0 ==> s[k - 1] != c,
    ensures
        drop_trailing_char(s, c) == s.take(k),
    decreases s.len(),
{
    if k == s.len() {
        assert(s.take(k as int) == s);
    } else {
        lemma_drop_trailing_char_take(s.take(s.len() - 1), c, k);
        assert(s.take(s.len() - 1).take(k) == s.take(k));
    }
}

/// `s` with every leading occurrence of `c` removed.
pub fn strip_leading_char<'a>(s: &'a str, c: char) -> (r: &'a str)
    ensures
        r@ == drop_leading_char(s@, c),
{
    let n = s.unicode_len();
    let mut lo: usize = 0;
    while lo < n && s.get_char(lo) == c
        invariant
            n == s@.len(),
            0 <= lo <= n,
            forall|i: int| 0 <= i < lo ==> s@[i] == c,
        decreases n - lo,
    {
        lo += 1;
    }
    proof {
        lemma_drop_leading_char_skip(s@, c, lo as int);
    }
    s.substring_char(lo, n)
}

/// `s` with every trailing occurrence of `c` removed.
pub fn strip_trailing_char<'a>(s: &'a str, c: char) -> (r: &'a str)
    ensures
        r@ == drop_trailing_char(s@, c),
{
    let n = s.unicode_len();
    let mut hi: usize = n;
    while hi > 0 && s.get_char(hi - 1) == c
        invariant
            n == s@.len(),
            0 <= hi <= n,
            forall|i: int| hi <= i < n ==> s@[i] == c,
        decreases hi,
    {
        hi -= 1;
    }
    proof {
        lemma_drop_trailing_char_take(s@, c, hi as int);
        assert(s@.take(hi as int) =~= s@.subrange(0, hi as int));
    }
    s.substring_char(0, hi)
}

/// `c` occurs nowhere in `s`.
pub open spec fn no_char(s: Seq<char>, c: char) -> bool {
    forall|i: int| 0 <= i < s.len() ==> s[i] != c
}

/// An occurrence within the left part of a concatenation is an occurrence
/// in the left part.
pub proof fn lemma_is_at_left(a: Seq<char>, b: Seq<char>, n: Seq<char>, j: int)
    requires
        0 <= j,
        j + n.len() <= a.len(),
    ensures
        is_at(a + b, n, j) <==> is_at(a, n, j),
{
    assert((a + b).subrange(j, j + n.len() as int) =~= a.subrange(j, j + n.len() as int));
}

/// An occurrence past the left part of a concatenation is an occurrence in
/// the right part, shifted.
pub proof fn lemma_is_at_right(a: Seq<char>, b: Seq<char>, n: Seq<char>, j: int)
    requires
        0 <= j,
        j + n.len() <= b.len(),
    ensures
        is_at(a + b, n, a.len() + j) <==> is_at(b, n, j),
{
    assert((a + b).subrange(a.len() + j, a.len() + j + n.len() as int) =~= b.subrange(
        j,
        j + n.len() as int,
    ));
}

/// An occurrence that fits inside a prefix is an occurrence in the prefix.
pub proof fn lemma_is_at_take(s: Seq<char>, m: int, n: Seq<char>, j: int)
    requires
        0 <= j,
        j + n.len() <= m <= s.len(),
    ensures
        is_at(s.take(m), n, j) <==> is_at(s, n, j),
{
    assert(s.take(m).subrange(j, j + n.len() as int) =~= s.subrange(j, j + n.len() as int));
}

/// Trimming a trim-stable sequence is a no-op.
pub proof fn lemma_trim_stable_noop(s: Seq<char>)
    requires
        trim_stable(s),
    ensures
        spec_trim(s) == s,
{
    lemma_trim_padded(Seq::empty(), s, Seq::empty());
    assert(Seq::empty() + s + Seq::empty() =~= s);
}

pub proof fn lemma_drop_trailing_ws_len(s: Seq<char>)
    ensures
        drop_trailing_ws(s).len() <= s.len(),
    decreases s.len(),
{
    if s.len() > 0 && is_ws(s[s.len() - 1]) {
        lemma_drop_trailing_ws_len(s.take(s.len() - 1));
    }
}

/// `drop_trailing_ws` keeps a prefix: what follows is whitespace, and the
/// kept part does not end in whitespace.
pub proof fn lemma_drop_trailing_ws_form(s: Seq<char>)
    ensures
        drop_trailing_ws(s) == s.take(drop_trailing_ws(s).len() as int),
        forall|j: int| drop_trailing_ws(s).len() <= j < s.len() ==> is_ws(#[trigger] s[j]),
        drop_trailing_ws(s).len() > 0 ==> !is_ws(s[drop_trailing_ws(s).len() - 1]),
    decreases s.len(),
{
    if s.len() > 0 && is_ws(s[s.len() - 1]) {
        let u = s.take(s.len() - 1);
        lemma_drop_trailing_ws_form(u);
        lemma_drop_trailing_ws_len(u);
        assert(drop_trailing_ws(s) == drop_trailing_ws(u));
        let m = drop_trailing_ws(s).len() as int;
        assert(drop_trailing_ws(u) == u.take(m));
        assert(m <= u.len());
        assert(u.take(m) =~= s.take(m));
        assert forall|j: int| m <= j < s.len() implies is_ws(#[trigger] s[j]) by {
            if j < s.len() - 1 {
                assert(s[j] == u[j]);
            }
        }
        if m > 0 {
            assert(!is_ws(u[m - 1]));
            assert(u[m - 1] == s[m - 1]);
        }
    } else {
        assert(s.take(s.len() as int) =~= s);
    }
}

/// Every sequence splits into leading whitespace, its trim, and trailing
/// whitespace.
pub proof fn lemma_trim_decompose(s: Seq<char>)
    ensures
        trim_stable(spec_trim(s)),
        exists|a: Seq<char>, b: Seq<char>|
            all_ws(a) && all_ws(b) && s == a + spec_trim(s) + b,
{
    let u = drop_leading_ws(s);
    lemma_drop_leading_prefix(s);
    let a = choose|a: Seq<char>| all_ws(a) && s == a + u;
    lemma_drop_trailing_ws_form(u);
    lemma_drop_trailing_ws_len(u);
    let t = drop_trailing_ws(u);
    assert(spec_trim(s) == t);
    assert(t == u.take(t.len() as int));
    let b = u.skip(t.len() as int);
    assert forall|j: int| 0 <= j < b.len() implies is_ws(#[trigger] b[j]) by {
        assert(b[j] == u[t.len() + j]);
    }
    assert(u =~= t + b);
    assert(s =~= a + spec_trim(s) + b);
    assert(trim_stable(spec_trim(s))) by {
        if t.len() > 0 {
            assert(!is_ws(t[t.len() - 1]));
            assert(t[0] == u[0]);
            lemma_drop_leading_no_ws_head(s);
        }
    }
}

/// The dropped leading part is whitespace.
proof fn lemma_drop_leading_prefix(s: Seq<char>)
    ensures
        exists|a: Seq<char>| all_ws(a) && s == a + drop_leading_ws(s),
    decreases s.len(),
{
    if s.len() > 0 && is_ws(s[0]) {
        lemma_drop_leading_prefix(s.skip(1));
        let a2 = choose|a2: Seq<char>| all_ws(a2) && s.skip(1) == a2 + drop_leading_ws(s.skip(1));
        let a = seq![s[0]] + a2;
        assert(all_ws(a));
        assert(drop_leading_ws(s) == drop_leading_ws(s.skip(1)));
        assert(s =~= seq![s[0]] + s.skip(1));
        assert(s =~= a + drop_leading_ws(s));
    } else {
        let a = Seq::<char>::empty();
        assert(all_ws(a));
        assert(s =~= a + drop_leading_ws(s));
    }
}

/// What remains after dropping leading whitespace does not start with
/// whitespace.
proof fn lemma_drop_leading_no_ws_head(s: Seq<char>)
    ensures
        drop_leading_ws(s).len() > 0 ==> !is_ws(drop_leading_ws(s)[0]),
    decreases s.len(),
{
    if s.len() > 0 && is_ws(s[0]) {
        lemma_drop_leading_no_ws_head(s.skip(1));
    }
}

/// Exact character equality of two strings.
pub fn str_eq(a: &str, b: &str) -> (r: bool)
    ensures
        r == (a@ == b@),
{
    let an = a.unicode_len();
    let bn = b.unicode_len();
    if an != bn {
        assert(a@ != b@) by {
            assert(a@.len() != b@.len());
        }
        return false;
    }
    let mut i: usize = 0;
    while i < an
        invariant
            an == a@.len(),
            an == b@.len(),
            0 <= i <= an,
            forall|j: int| 0 <= j < i ==> a@[j] == b@[j],
        decreases an - i,
    {
        if a.get_char(i) != b.get_char(i) {
            assert(a@ != b@);
            return false;
        }
        i += 1;
    }
    assert(a@ =~= b@);
    true
}

/// Whether `needle` occurs in `hay` starting at `i`.
fn occurs_at(hay: &str, needle: &str, i: usize) -> (r: bool)
    requires
        i + needle@.len() <= hay@.len(),
    ensures
        r == is_at(hay@, needle@, i as int),
{
    let hn = hay.unicode_len();
    let n = needle.unicode_len();
    let seg = hay.substring_char(i, i + n);
    str_eq(seg, needle)
}

/// First occurrence of `needle` in `hay`: the returned position is the
/// least one, and `None` means `needle` occurs nowhere.
pub fn find_sub(hay: &str, needle: &str) -> (r: Option<usize>)
    ensures
        match r {
            Some(i) => is_at(hay@, needle@, i as int) && forall|j: int|
                0 <= j < i ==> !is_at(hay@, needle@, j),
            None => forall|j: int| !is_at(hay@, needle@, j),
        },
{
    let hn = hay.unicode_len();
    let nn = needle.unicode_len();
    if nn > hn {
        return None;
    }
    let end: usize = hn - nn;
    let mut i: usize = 0;
    while i < end
        invariant
            hn == hay@.len(),
            nn == needle@.len(),
            nn <= hn,
            end == hn - nn,
            0 <= i <= end,
            forall|j: int| 0 <= j < i ==> !is_at(hay@, needle@, j),
        decreases end - i,
    {
        if occurs_at(hay, needle, i) {
            return Some(i);
        }
        i += 1;
    }
    if occurs_at(hay, needle, end) {
        return Some(end);
    }
    assert(forall|j: int| !is_at(hay@, needle@, j));
    None
}

/// Whether `needle` occurs anywhere in `hay`.
pub fn contains_sub(hay: &str, needle: &str) -> (r: bool)
    ensures
        r == contains_seq(hay@, needle@),
{
    match find_sub(hay, needle) {
        Some(i) => {
            assert(is_at(hay@, needle@, i as int));
            true
        },
        None => false,
    }
}

/// Whether `c` is one of the codec's whitespace characters.
pub fn ws_char(c: char) -> (r: bool)
    ensures
        r == is_ws(c),
{
    c == ' ' || c == '\t' || c == '\n' || c == '\r'
}

/// `s` with surrounding whitespace removed.
pub fn trim_str<'a>(s: &'a str) -> (r: &'a str)
    ensures
        r@ == spec_trim(s@),
{
    let n = s.unicode_len();
    let mut lo: usize = 0;
    while lo < n && ws_char(s.get_char(lo))
        invariant
            n == s@.len(),
            0 <= lo <= n,
            forall|i: int| 0 <= i < lo ==> is_ws(#[trigger] s@[i]),
        decreases n - lo,
    {
        lo += 1;
    }
    proof {
        lemma_drop_leading_ws_skip(s@, lo as int);
    }
    let mut hi: usize = n;
    while hi > lo && ws_char(s.get_char(hi - 1))
        invariant
            n == s@.len(),
            0 <= lo <= hi <= n,
            forall|i: int| 0 <= i < lo ==> is_ws(#[trigger] s@[i]),
            lo < n ==> !is_ws(s@[lo as int]),
            forall|i: int| hi <= i < n ==> is_ws(#[trigger] s@[i]),
        decreases hi,
    {
        hi -= 1;
    }
    proof {
        let u = s@.skip(lo as int);
        lemma_drop_trailing_ws_take(u, hi - lo);
        assert(u.take(hi - lo) =~= s@.subrange(lo as int, hi as int));
    }
    s.substring_char(lo, hi)
}

/// Appends one character to a string.
/// Relies on `String::push`: appends exactly the given character.
#[verifier::external_body]
pub(crate) fn push_char(s: &mut String, c: char)
    ensures
        final(s)@ == old(s)@.push(c),
{
    s.push(c);
}

} // verus!
