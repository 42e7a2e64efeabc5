//! The directory index: turning the files of a month directory into a
//! listing, and filtering a corpus by a case-insensitive substring query.
//! The index owns no state; callers enumerate the files and hand their
//! contents in, and results come back sorted by identifier, descending.

use vstd::prelude::*;
use vstd::string::*;

verus! {

use crate::frontmatter::{parse_frontmatter, spec_parse_frontmatter};
use crate::meta::{EntryListItem, ItemView, MetaView, spec_project};
use crate::text::{contains_seq, contains_sub};

broadcast use vstd::seq_lib::group_to_multiset_ensures;

/// One candidate entry file: its filename stem and its raw text.
pub struct ScannedFile {
    pub stem: String,
    pub content: String,
}

/// Mathematical model of [`ScannedFile`].
#[verifier::ext_equal]
pub ghost struct FileView {
    pub stem: Seq<char>,
    pub content: Seq<char>,
}

impl View for ScannedFile {
    type V = FileView;

    open spec fn view(&self) -> FileView {
        FileView { stem: self.stem@, content: self.content@ }
    }
}

impl DeepView for ScannedFile {
    type V = FileView;

    open spec fn deep_view(&self) -> FileView {
        self.view()
    }
}

/// A blank identifier is back-filled from the filename stem; files written
/// before identifiers existed are listed under their stem.
pub open spec fn backfill_id(m: MetaView, stem: Seq<char>) -> MetaView {
    if m.id.len() == 0 {
        MetaView { id: stem, ..m }
    } else {
        m
    }
}

/// The listing row a file contributes: its parsed frontmatter with the
/// identifier back-filled, or nothing when the frontmatter is malformed.
pub open spec fn spec_item_of(f: FileView) -> Option<ItemView> {
    match spec_parse_frontmatter(f.content) {
        None => None,
        Some(m) => Some(spec_project(backfill_id(m, f.stem))),
    }
}

/// The listing rows of the files, in file order; unparsable files are
/// skipped, never reported.
pub open spec fn items_of(files: Seq<FileView>) -> Seq<ItemView>
    decreases files.len(),
{
    if files.len() == 0 {
        Seq::empty()
    } else {
        (match spec_item_of(files[0]) {
            None => Seq::empty(),
            Some(it) => seq![it],
        }) + items_of(files.drop_first())
    }
}

/// What `str::to_lowercase` returns; the result is a function of the
/// characters alone.
pub uninterp spec fn lower_of(s: Seq<char>) -> Seq<char>;

/// Relies on `str::to_lowercase`: the Unicode lowercase mapping of the
/// string, depending on its characters alone.
#[verifier::external_body]
fn lowercase(s: &str) -> (r: String)
    ensures
        r@ == lower_of(s@),
{
    s.to_lowercase()
}

/// A file matches a query when the lowercased query occurs in the
/// lowercased raw file text (frontmatter and all sections).
pub open spec fn matches_query(content: Seq<char>, query: Seq<char>) -> bool {
    contains_seq(lower_of(content), lower_of(query))
}

/// The listing rows of the files that match the query, in file order.
pub open spec fn search_items_of(files: Seq<FileView>, query: Seq<char>) -> Seq<ItemView>
    decreases files.len(),
{
    if files.len() == 0 {
        Seq::empty()
    } else {
        (if matches_query(files[0].content, query) {
            match spec_item_of(files[0]) {
                None => Seq::empty(),
                Some(it) => seq![it],
            }
        } else {
            Seq::empty()
        }) + search_items_of(files.drop_first(), query)
    }
}

/// Lexicographic order on character sequences, by code point; on UTF-8
/// text this agrees with byte-wise string comparison.
pub open spec fn seq_le(a: Seq<char>, b: Seq<char>) -> bool
    decreases a.len(),
{
    if a.len() == 0 {
        true
    } else if b.len() == 0 {
        false
    } else if (a[0] as u32) < (b[0] as u32) {
        true
    } else if (a[0] as u32) > (b[0] as u32) {
        false
    } else {
        seq_le(a.skip(1), b.skip(1))
    }
}

/// Sorted by identifier, most recent first: identifiers are zero-padded
/// and date-prefixed, so this lexicographic order is chronological.
pub open spec fn sorted_desc(s: Seq<ItemView>) -> bool {
    forall|i: int, j: int| 0 <= i <= j < s.len() ==> seq_le(#[trigger] s[j].id, #[trigger] s[i].id)
}

pub proof fn lemma_seq_le_total(a: Seq<char>, b: Seq<char>)
    ensures
        seq_le(a, b) || seq_le(b, a),
    decreases a.len(),
{
    if a.len() > 0 && b.len() > 0 && (a[0] as u32) == (b[0] as u32) {
        lemma_seq_le_total(a.skip(1), b.skip(1));
    }
}

pub proof fn lemma_seq_le_trans(a: Seq<char>, b: Seq<char>, c: Seq<char>)
    requires
        seq_le(a, b),
        seq_le(b, c),
    ensures
        seq_le(a, c),
    decreases a.len(),
{
    if a.len() > 0 && b.len() > 0 && c.len() > 0 && (a[0] as u32) == (b[0] as u32) && (b[0] as u32)
        == (c[0] as u32) {
        lemma_seq_le_trans(a.skip(1), b.skip(1), c.skip(1));
    }
}

/// Inserting anywhere adds one occurrence to the multiset.
proof fn lemma_insert_multiset<A>(s: Seq<A>, p: int, x: A)
    requires
        0 <= p <= s.len(),
    ensures
        s.insert(p, x).to_multiset() == s.to_multiset().insert(x),
{
    let t = s.insert(p, x);
    assert(t.remove(p) =~= s);
    assert(t[p] == x);
    assert(t.remove(p).to_multiset() =~= t.to_multiset().remove(t[p]));
    assert(t.to_multiset().contains(x)) by {
        assert(t.contains(x));
    }
    assert(t.to_multiset() =~= s.to_multiset().insert(x));
}

/// Whether `a` sorts at or before `b`.
fn str_le(a: &str, b: &str) -> (r: bool)
    ensures
        r == seq_le(a@, b@),
    decreases a@.len(),
{
    let an = a.unicode_len();
    let bn = b.unicode_len();
    if an == 0 {
        return true;
    }
    if bn == 0 {
        return false;
    }
    let ca = a.get_char(0);
    let cb = b.get_char(0);
    if (ca as u32) < (cb as u32) {
        return true;
    }
    if (ca as u32) > (cb as u32) {
        return false;
    }
    let r = str_le(a.substring_char(1, an), b.substring_char(1, bn));
    proof {
        assert(a@.subrange(1, an as int) == a@.skip(1));
        assert(b@.subrange(1, bn as int) == b@.skip(1));
    }
    r
}

/// Inserts one row into a descending-sorted listing, keeping it sorted.
fn insert_sorted(out: &mut Vec<EntryListItem>, x: EntryListItem)
    requires
        sorted_desc(old(out).deep_view()),
    ensures
        sorted_desc(final(out).deep_view()),
        final(out).deep_view().to_multiset() == old(out).deep_view().to_multiset().insert(x@),
{
    let n = out.len();
    let mut p: usize = 0;
    while p < n && !str_le(out[p].id.as_str(), x.id.as_str())
        invariant
            n == out@.len(),
            0 <= p <= n,
            sorted_desc(out.deep_view()),
            forall|i: int| 0 <= i < p ==> !seq_le(#[trigger] out.deep_view()[i].id, x@.id),
        decreases n - p,
    {
        p += 1;
    }
    let ghost before = out.deep_view();
    out.insert(p, x);
    proof {
        assert(out.deep_view() =~= before.insert(p as int, x@));
        lemma_insert_multiset(before, p as int, x@);
        let dv = out.deep_view();
        assert forall|i: int, j: int| 0 <= i <= j < dv.len() implies seq_le(
            #[trigger] dv[j].id,
            #[trigger] dv[i].id,
        ) by {
            let pi = p as int;
            if j < pi {
                assert(dv[i] == before[i] && dv[j] == before[j]);
                assert(seq_le(before[j].id, before[i].id));
            } else if i > pi {
                assert(dv[i] == before[i - 1] && dv[j] == before[j - 1]);
                assert(seq_le(before[j - 1].id, before[i - 1].id));
            } else if i == pi && j == pi {
                lemma_seq_le_total(x@.id, x@.id);
            } else if i < pi && j == pi {
                assert(dv[i] == before[i] && dv[j] == x@);
                lemma_seq_le_total(before[i].id, x@.id);
            } else if i == pi && j > pi {
                assert(dv[i] == x@ && dv[j] == before[j - 1]);
                assert(seq_le(before[pi].id, x@.id));
                assert(seq_le(before[j - 1].id, before[pi].id));
                lemma_seq_le_trans(before[j - 1].id, before[pi].id, x@.id);
            } else {
                assert(i < pi && j > pi);
                assert(dv[i] == before[i] && dv[j] == before[j - 1]);
                assert(seq_le(before[j - 1].id, before[i].id));
            }
        }
    }
}

/// Sorts listing rows by identifier, descending.
fn sort_items(items: Vec<EntryListItem>) -> (r: Vec<EntryListItem>)
    ensures
        r.deep_view().to_multiset() == items.deep_view().to_multiset(),
        sorted_desc(r.deep_view()),
{
    let mut rest = items;
    let mut out: Vec<EntryListItem> = Vec::new();
    proof {
        assert(out.deep_view() =~= Seq::<ItemView>::empty());
        assert(out.deep_view().to_multiset().add(rest.deep_view().to_multiset())
            =~= items.deep_view().to_multiset());
    }
    while rest.len() > 0
        invariant
            sorted_desc(out.deep_view()),
            out.deep_view().to_multiset().add(rest.deep_view().to_multiset())
                == items.deep_view().to_multiset(),
        decreases rest@.len(),
    {
        let ghost rest_before = rest.deep_view();
        let ghost out_before = out.deep_view();
        let x = match rest.pop() {
            None => {
                proof {
                    assert(false);
                }
                return out;
            },
            Some(x) => x,
        };
        proof {
            assert(rest.deep_view() =~= rest_before.drop_last());
            assert(rest_before.remove(rest_before.len() - 1) =~= rest_before.drop_last());
            assert(rest_before.remove(rest_before.len() - 1).to_multiset()
                =~= rest_before.to_multiset().remove(rest_before.last()));
            assert(rest_before.last() == x@);
        }
        insert_sorted(&mut out, x);
        proof {
            assert(rest_before.to_multiset().contains(x@)) by {
                assert(rest_before.contains(x@));
            }
            assert(out.deep_view().to_multiset().add(rest.deep_view().to_multiset())
                =~= out_before.to_multiset().add(rest_before.to_multiset()));
        }
    }
    proof {
        assert(rest@.len() == 0);
        assert(rest.deep_view().len() == 0);
        assert(rest.deep_view().to_multiset().len() == 0);
        vstd::multiset::lemma_multiset_empty_len::<ItemView>(rest.deep_view().to_multiset());
        assert(out.deep_view().to_multiset().add(rest.deep_view().to_multiset())
            =~= out.deep_view().to_multiset());
        assert(out.deep_view().to_multiset() =~= items.deep_view().to_multiset());
    }
    out
}

/// The listing row of one file, if its frontmatter parses.
fn item_from_file(f: &ScannedFile) -> (r: Option<EntryListItem>)
    ensures
        match r {
            None => spec_item_of(f@) is None,
            Some(it) => spec_item_of(f@) == Some(it@),
        },
{
    match parse_frontmatter(f.content.as_str()) {
        None => None,
        Some(meta) => {
            let mut meta = meta;
            if meta.id.unicode_len() == 0 {
                meta.id = f.stem.clone();
            }
            proof {
                assert(meta@ == backfill_id(spec_parse_frontmatter(f@.content).unwrap(), f@.stem));
            }
            Some(meta.to_list_item())
        },
    }
}

/// The unsorted listing rows of the files from `from` on.
fn gather_items(files: &Vec<ScannedFile>, from: usize) -> (r: Vec<EntryListItem>)
    requires
        from <= files@.len(),
    ensures
        r.deep_view() == items_of(files.deep_view().skip(from as int)),
    decreases files@.len() - from,
{
    if from == files.len() {
        let r: Vec<EntryListItem> = Vec::new();
        proof {
            assert(files.deep_view().skip(from as int).len() == 0);
            assert(r.deep_view() =~= items_of(files.deep_view().skip(from as int)));
        }
        return r;
    }
    let mut rest = gather_items(files, from + 1);
    let it = item_from_file(&files[from]);
    proof {
        let fs = files.deep_view().skip(from as int);
        assert(fs[0] == files.deep_view()[from as int]);
        assert(fs.drop_first() =~= files.deep_view().skip(from as int + 1));
    }
    match it {
        None => {
            proof {
                assert(rest.deep_view() =~= items_of(files.deep_view().skip(from as int)));
            }
            rest
        },
        Some(item) => {
            let ghost before = rest.deep_view();
            rest.insert(0, item);
            proof {
                assert(rest.deep_view() =~= seq![item@] + before);
                assert(rest.deep_view() =~= items_of(files.deep_view().skip(from as int)));
            }
            rest
        },
    }
}

/// The unsorted listing rows of the matching files from `from` on.
fn gather_search(files: &Vec<ScannedFile>, lq: &str, from: usize, Ghost(query): Ghost<Seq<char>>)
    -> (r: Vec<EntryListItem>)
    requires
        from <= files@.len(),
        lq@ == lower_of(query),
    ensures
        r.deep_view() == search_items_of(files.deep_view().skip(from as int), query),
    decreases files@.len() - from,
{
    if from == files.len() {
        let r: Vec<EntryListItem> = Vec::new();
        proof {
            assert(files.deep_view().skip(from as int).len() == 0);
            assert(r.deep_view() =~= search_items_of(files.deep_view().skip(from as int), query));
        }
        return r;
    }
    let mut rest = gather_search(files, lq, from + 1, Ghost(query));
    proof {
        let fs = files.deep_view().skip(from as int);
        assert(fs[0] == files.deep_view()[from as int]);
        assert(fs.drop_first() =~= files.deep_view().skip(from as int + 1));
    }
    let lc = lowercase(files[from].content.as_str());
    if contains_sub(lc.as_str(), lq) {
        let it = item_from_file(&files[from]);
        match it {
            None => {
                proof {
                    assert(rest.deep_view() =~= search_items_of(
                        files.deep_view().skip(from as int),
                        query,
                    ));
                }
                rest
            },
            Some(item) => {
                let ghost before = rest.deep_view();
                rest.insert(0, item);
                proof {
                    assert(rest.deep_view() =~= seq![item@] + before);
                    assert(rest.deep_view() =~= search_items_of(
                        files.deep_view().skip(from as int),
                        query,
                    ));
                }
                rest
            },
        }
    } else {
        proof {
            assert(rest.deep_view() =~= search_items_of(
                files.deep_view().skip(from as int),
                query,
            ));
        }
        rest
    }
}

/// Builds the listing of one month directory from its candidate files.
///
/// Exactly the rows of [`items_of`] come back, sorted by identifier,
/// descending.  No files — including the case of a directory that does
/// not exist, which contributes no files — yield an empty listing, not an
/// error.
pub fn listing_from_files(files: &Vec<ScannedFile>) -> (r: Vec<EntryListItem>)
    ensures
        r.deep_view().to_multiset() == items_of(files.deep_view()).to_multiset(),
        sorted_desc(r.deep_view()),
        files@.len() == 0 ==> r@.len() == 0,
{
    let gathered = gather_items(files, 0);
    proof {
        assert(files.deep_view().skip(0) == files.deep_view());
    }
    let r = sort_items(gathered);
    proof {
        if files@.len() == 0 {
            assert(items_of(files.deep_view()).len() == 0);
            assert(r.deep_view().to_multiset().len() == 0);
            assert(r.deep_view().len() == r.deep_view().to_multiset().len());
        }
    }
    r
}

/// Filters a corpus by a case-insensitive substring query over the raw
/// file text — frontmatter and all sections, so text occurring only in a
/// translation section is found.
///
/// Exactly the rows of [`search_items_of`] come back, sorted by
/// identifier, descending.
pub fn search_from_files(files: &Vec<ScannedFile>, query: &str) -> (r: Vec<EntryListItem>)
    ensures
        r.deep_view().to_multiset() == search_items_of(files.deep_view(), query@).to_multiset(),
        sorted_desc(r.deep_view()),
{
    let lq = lowercase(query);
    let gathered = gather_search(files, lq.as_str(), 0, Ghost(query@));
    proof {
        assert(files.deep_view().skip(0) == files.deep_view());
    }
    sort_items(gathered)
}

} // verus!
