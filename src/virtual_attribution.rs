use vstd::prelude::*;

use crate::authorship_log::{
    attributions_valid, capped, entries_view, file_lines_for, files_wf, group_by_author, grouped, kept_files,
    lemma_kept_in_range, referenced_by, AuthorshipLog, FileAttestation, PromptRecord,
};
use crate::commit_model::consolidated_view;
use crate::error::GitAiError;
use crate::line_attribution::{attributions_to_line_attributions, line_spans};
use crate::line_stats::line_diff_of;
use crate::str_map::{lookup, StrMap};
use crate::tracker::{attr_view, attr_views, blen, coalesce, track, update_attributions, AttrView};
use crate::working_log::{Attribution, LineAttribution};

verus! {

/// The author reserved for text that no earlier state accounts for.
pub const DUMMY_AUTHOR: &'static str = "__DUMMY__";

/// One file of a virtual attribution state.
#[derive(Debug, PartialEq, Eq)]
pub struct FileState {
    pub content: String,
    pub attributions: Vec<Attribution>,
    pub line_attributions: Vec<LineAttribution>,
}

/// An in-memory authorship state of a set of files at some base commit.
#[derive(Debug, PartialEq, Eq)]
pub struct VirtualAttributions {
    pub base_commit: String,
    pub ts: u128,
    pub files: StrMap<FileState>,
    pub prompts: StrMap<PromptRecord>,
}

/// Whether `needle` occurs in `hay` at byte `i`.
pub open spec fn occurs_at(hay: Seq<u8>, needle: Seq<u8>, i: int) -> bool {
    0 <= i && i + needle.len() <= hay.len() && hay.subrange(i, i + needle.len()) == needle
}

/// The first byte position of `needle` in `hay`, as `str::find` gives it.
#[verifier::opaque]
pub open spec fn find_bytes(hay: Seq<u8>, needle: Seq<u8>) -> Option<int> {
    if exists|i: int| #[trigger] occurs_at(hay, needle, i) {
        Some(choose|i: int| #[trigger] occurs_at(hay, needle, i) && forall|j: int| 0 <= j < i ==> !#[trigger] occurs_at(hay, needle, j))
    } else {
        None
    }
}

fn occurs_here(hay: &[u8], needle: &[u8], i: usize) -> (r: bool)
    requires
        i + needle@.len() <= hay@.len(),
    ensures
        r == occurs_at(hay@, needle@, i as int),
{
    let n = hay.len();
    let mut k: usize = 0;
    while k < needle.len()
        invariant
            0 <= k <= needle@.len(),
            n == hay@.len(),
            i + needle@.len() <= hay@.len(),
            forall|q: int| 0 <= q < k ==> hay@[i + q] == needle@[q],
        decreases needle@.len() - k,
    {
        assert(i + k < n);
        if hay[i + k] != needle[k] {
            assert(!occurs_at(hay@, needle@, i as int)) by {
                if occurs_at(hay@, needle@, i as int) {
                    assert(hay@.subrange(i as int, i + needle@.len())[k as int] == hay@[i + k]);
                }
            }
            return false;
        }
        k = k + 1;
    }
    assert(hay@.subrange(i as int, i + needle@.len()) =~= needle@);
    true
}

proof fn lemma_first_occurrence(hay: Seq<u8>, needle: Seq<u8>, i: int)
    requires
        occurs_at(hay, needle, i),
        forall|j: int| 0 <= j < i ==> !#[trigger] occurs_at(hay, needle, j),
    ensures
        find_bytes(hay, needle) == Some(i),
{
    reveal(find_bytes);
    let c = choose|c: int| #[trigger] occurs_at(hay, needle, c) && forall|j: int| 0 <= j < c ==> !#[trigger] occurs_at(hay, needle, j);
    if c > i {
        assert(!occurs_at(hay, needle, i));
    }
    if c < i {
        assert(!occurs_at(hay, needle, c));
    }
}

fn find_in(hay: &[u8], needle: &[u8]) -> (r: Option<usize>)
    ensures
        match r {
            Some(i) => find_bytes(hay@, needle@) == Some(i as int),
            None => find_bytes(hay@, needle@) is None,
        },
{
    proof {
        reveal(find_bytes);
    }
    if needle.len() > hay.len() {
        assert forall|i: int| !#[trigger] occurs_at(hay@, needle@, i) by {}
        return None;
    }
    let last = hay.len() - needle.len();
    let mut i: usize = 0;
    while i < last
        invariant
            last == hay@.len() - needle@.len(),
            0 <= i <= last,
            forall|j: int| 0 <= j < i ==> !#[trigger] occurs_at(hay@, needle@, j),
        decreases last - i,
    {
        if occurs_here(hay, needle, i) {
            proof {
                lemma_first_occurrence(hay@, needle@, i as int);
            }
            return Some(i);
        }
        i = i + 1;
    }
    if occurs_here(hay, needle, last) {
        proof {
            lemma_first_occurrence(hay@, needle@, last as int);
        }
        return Some(last);
    }
    assert forall|j: int| !#[trigger] occurs_at(hay@, needle@, j) by {
        if occurs_at(hay@, needle@, j) {
            assert(j <= last);
        }
    }
    None
}

/// The author of the first reference attribution holding byte `pos`.
pub open spec fn author_at(ref_attrs: Seq<AttrView>, pos: int) -> Option<Seq<char>>
    decreases ref_attrs.len(),
{
    if ref_attrs.len() == 0 {
        None
    } else {
        match author_at(ref_attrs.drop_last(), pos) {
            Some(a) => Some(a),
            None => if ref_attrs.last().0 <= pos < ref_attrs.last().1 {
                Some(ref_attrs.last().2)
            } else {
                None
            },
        }
    }
}

/// A dummy attribution whose text also occurs in the reference content
/// takes the author of the reference attribution at that text's first
/// occurrence; any other attribution stays.
pub open spec fn restore_one(a: AttrView, fin: Seq<u8>, reference: Seq<u8>, ref_attrs: Seq<AttrView>) -> AttrView {
    let end = if a.1 < fin.len() { a.1 } else { fin.len() as int };
    if a.2 == DUMMY_AUTHOR@ && 0 <= a.0 <= end {
        match find_bytes(reference, fin.subrange(a.0, end)) {
            Some(pos) => match author_at(ref_attrs, pos) {
                Some(who) => (a.0, a.1, who, a.3),
                None => a,
            },
            None => a,
        }
    } else {
        a
    }
}

/// The attributions not marked dummy, in order.
pub open spec fn without_dummy(s: Seq<AttrView>) -> Seq<AttrView>
    decreases s.len(),
{
    if s.len() == 0 {
        s
    } else if s.last().2 == DUMMY_AUTHOR@ {
        without_dummy(s.drop_last())
    } else {
        without_dummy(s.drop_last()).push(s.last())
    }
}

/// A file's attributions after moving to `fin`: the tracker's result with
/// new text marked dummy (none without a source state), then the reference
/// state's attributions when the reference content is `fin`, or else each
/// dummy run restored from the reference, and finally no dummy left. None
/// when the tracker fails.
pub open spec fn transformed(
    source: Option<(Seq<char>, Seq<AttrView>)>,
    fin: Seq<char>,
    reference: Option<(Seq<char>, Seq<AttrView>)>,
    ts: u128,
) -> Option<Seq<AttrView>> {
    let carried = match source {
        Some((content, attrs)) => {
            let t = track(line_diff_of(content, fin), attrs, DUMMY_AUTHOR@, ts);
            if t.0 == blen(content) && t.1 == blen(fin) {
                Some(coalesce(t.2))
            } else {
                None
            }
        },
        None => Some(Seq::empty()),
    };
    match carried {
        None => None,
        Some(x) => {
            let y = match reference {
                Some((rc, ra)) => if rc == fin {
                    ra
                } else {
                    Seq::new(
                        x.len(),
                        |i: int|
                            restore_one(
                                x[i],
                                vstd::utf8::encode_utf8(fin),
                                vstd::utf8::encode_utf8(rc),
                                ra,
                            ),
                    )
                },
                None => x,
            };
            Some(without_dummy(y))
        },
    }
}

fn copy_attributions(v: &[Attribution]) -> (r: Vec<Attribution>)
    ensures
        attr_views(r@) == attr_views(v@),
{
    let mut out: Vec<Attribution> = Vec::new();
    let mut i: usize = 0;
    while i < v.len()
        invariant
            0 <= i <= v@.len(),
            attr_views(out@) == attr_views(v@.subrange(0, i as int)),
        decreases v@.len() - i,
    {
        let ghost before = attr_views(out@);
        out.push(Attribution { start: v[i].start, end: v[i].end, author_id: v[i].author_id.clone(), ts: v[i].ts });
        assert(attr_views(out@) =~= before.push(attr_view(v@[i as int])));
        assert(attr_views(v@.subrange(0, i + 1)) =~= attr_views(v@.subrange(0, i as int)).push(attr_view(v@[i as int])));
        i = i + 1;
    }
    assert(v@.subrange(0, v@.len() as int) =~= v@);
    out
}

fn author_at_exec(ref_attrs: &[Attribution], pos: usize) -> (r: Option<String>)
    ensures
        match r {
            Some(s) => author_at(attr_views(ref_attrs@), pos as int) == Some(s@),
            None => author_at(attr_views(ref_attrs@), pos as int) is None,
        },
{
    let ghost rv = attr_views(ref_attrs@);
    let mut i: usize = 0;
    while i < ref_attrs.len()
        invariant
            0 <= i <= ref_attrs@.len(),
            rv == attr_views(ref_attrs@),
            author_at(rv.subrange(0, i as int), pos as int) is None,
        decreases ref_attrs@.len() - i,
    {
        assert(rv.subrange(0, i + 1).drop_last() =~= rv.subrange(0, i as int));
        assert(rv.subrange(0, i + 1).last() == attr_view(ref_attrs@[i as int]));
        if ref_attrs[i].start <= pos && pos < ref_attrs[i].end {
            proof {
                lemma_author_at_prefix(rv, i as int + 1, pos as int);
            }
            return Some(ref_attrs[i].author_id.clone());
        }
        i = i + 1;
    }
    assert(rv.subrange(0, ref_attrs@.len() as int) =~= rv);
    None
}

proof fn lemma_author_at_prefix(rv: Seq<AttrView>, n: int, pos: int)
    requires
        0 <= n <= rv.len(),
        author_at(rv.subrange(0, n), pos) is Some,
    ensures
        author_at(rv, pos) == author_at(rv.subrange(0, n), pos),
    decreases rv.len() - n,
{
    if n < rv.len() {
        assert(rv.subrange(0, n + 1).drop_last() =~= rv.subrange(0, n));
        lemma_author_at_prefix(rv, n + 1, pos);
    } else {
        assert(rv.subrange(0, n) =~= rv);
    }
}

#[verifier::rlimit(40)]
fn restore_exec(a: &Attribution, fin: &[u8], rb: &[u8], ra: &[Attribution]) -> (r: Attribution)
    ensures
        attr_view(r) == restore_one(attr_view(*a), fin@, rb@, attr_views(ra@)),
{
    let end = if a.end < fin.len() { a.end } else { fin.len() };
    if crate::text::str_eq(a.author_id.as_str(), DUMMY_AUTHOR) && a.start <= end {
        let needle = crate::text::slice_bytes(fin, a.start, end);
        match find_in(rb, needle.as_slice()) {
            Some(pos) => match author_at_exec(ra, pos) {
                Some(s) => {
                    return Attribution { start: a.start, end: a.end, author_id: s, ts: a.ts };
                },
                None => {},
            },
            None => {},
        }
    }
    Attribution { start: a.start, end: a.end, author_id: a.author_id.clone(), ts: a.ts }
}

/// Moves one file's attributions to `final_content`; see `transformed`.
pub fn transform_file(
    source: Option<(&str, &[Attribution])>,
    final_content: &str,
    reference: Option<(&str, &[Attribution])>,
    ts: u128,
) -> (r: Result<Vec<Attribution>, GitAiError>)
    ensures
        ({
            let src = match source {
                Some((c, a)) => Some((c@, attr_views(a@))),
                None => None,
            };
            let rf = match reference {
                Some((c, a)) => Some((c@, attr_views(a@))),
                None => None,
            };
            match r {
                Ok(v) => transformed(src, final_content@, rf, ts) == Some(attr_views(v@)),
                Err(_) => transformed(src, final_content@, rf, ts) is None,
            }
        }),
{
    let carried: Vec<Attribution> = match source {
        Some((content, attrs)) => update_attributions(content, final_content, attrs, DUMMY_AUTHOR, ts)?,
        None => Vec::new(),
    };
    let ghost x = attr_views(carried@);
    let restored: Vec<Attribution> = match reference {
        Some((rc, ra)) => {
            if crate::text::str_eq(rc, final_content) {
                copy_attributions(ra)
            } else {
                let fin = final_content.as_bytes();
                let rb = rc.as_bytes();
                let mut out: Vec<Attribution> = Vec::new();
                let mut i: usize = 0;
                while i < carried.len()
                    invariant
                        0 <= i <= carried@.len(),
                        x == attr_views(carried@),
                        fin@ == vstd::utf8::encode_utf8(final_content@),
                        rb@ == vstd::utf8::encode_utf8(rc@),
                        attr_views(out@) == Seq::new(i as nat, |q: int| restore_one(x[q], fin@, rb@, attr_views(ra@))),
                    decreases carried@.len() - i,
                {
                    let a = &carried[i];
                    assert(x[i as int] == attr_view(*a));
                    let ghost expected = restore_one(x[i as int], fin@, rb@, attr_views(ra@));
                    let restored_one = restore_exec(a, fin, rb, ra);
                    let ghost before = attr_views(out@);
                    out.push(restored_one);
                    assert(attr_views(out@) =~= before.push(expected));
                    assert(Seq::new((i + 1) as nat, |q: int| restore_one(x[q], fin@, rb@, attr_views(ra@))) =~= Seq::new(
                        i as nat,
                        |q: int| restore_one(x[q], fin@, rb@, attr_views(ra@)),
                    ).push(expected));
                    i = i + 1;
                }
                out
            }
        },
        None => carried,
    };
    let ghost y = attr_views(restored@);
    let mut kept: Vec<Attribution> = Vec::new();
    let mut j: usize = 0;
    while j < restored.len()
        invariant
            0 <= j <= restored@.len(),
            y == attr_views(restored@),
            attr_views(kept@) == without_dummy(y.subrange(0, j as int)),
        decreases restored@.len() - j,
    {
        let a = &restored[j];
        assert(y.subrange(0, j + 1).drop_last() =~= y.subrange(0, j as int));
        assert(y.subrange(0, j + 1).last() == attr_view(*a));
        if !crate::text::str_eq(a.author_id.as_str(), DUMMY_AUTHOR) {
            let ghost before = attr_views(kept@);
            kept.push(Attribution { start: a.start, end: a.end, author_id: a.author_id.clone(), ts: a.ts });
            assert(attr_views(kept@) =~= before.push(attr_view(*a)));
        }
        j = j + 1;
    }
    assert(y.subrange(0, restored@.len() as int) =~= y);
    Ok(kept)
}


/// A file state as its content and attributions.
pub open spec fn state_view(f: FileState) -> (Seq<char>, Seq<AttrView>) {
    (f.content@, attr_views(f.attributions@))
}

pub open spec fn state_of(files: Seq<(Seq<char>, FileState)>, p: Seq<char>) -> Option<(Seq<char>, Seq<AttrView>)> {
    match lookup(files, p) {
        Some(f) => Some(state_view(f)),
        None => None,
    }
}

/// The files after moving to the final contents, in their order: a file
/// whose final content is empty keeps its source state (and is left out
/// without one); any other file gets `transformed` attributions over its
/// final content. None when a file cannot be moved.
pub open spec fn moved_files(
    fin: Seq<(Seq<char>, String)>,
    src: Seq<(Seq<char>, FileState)>,
    reference: Option<Seq<(Seq<char>, FileState)>>,
    ts: u128,
) -> Option<Seq<(Seq<char>, (Seq<char>, Seq<AttrView>))>>
    decreases fin.len(),
{
    if fin.len() == 0 {
        Some(Seq::empty())
    } else {
        match moved_files(fin.drop_last(), src, reference, ts) {
            None => None,
            Some(done) => {
                let p = fin.last().0;
                let c = fin.last().1@;
                if c.len() == 0 {
                    match state_of(src, p) {
                        Some(st) => Some(done.push((p, st))),
                        None => Some(done),
                    }
                } else if line_spans(vstd::utf8::encode_utf8(c)).len() > u32::MAX {
                    None
                } else {
                    let r = match reference {
                        Some(rf) => state_of(rf, p),
                        None => None,
                    };
                    match transformed(state_of(src, p), c, r, ts) {
                        None => None,
                        Some(a) => Some(done.push((p, (c, a)))),
                    }
                }
            },
        }
    }
}

pub open spec fn files_view(files: Seq<(Seq<char>, FileState)>) -> Seq<(Seq<char>, (Seq<char>, Seq<AttrView>))> {
    files.map_values(|e: (Seq<char>, FileState)| (e.0, state_view(e.1)))
}

fn copy_state(f: &FileState) -> (r: FileState)
    ensures
        state_view(r) == state_view(*f),
        r.line_attributions@ == f.line_attributions@,
{
    let mut las: Vec<LineAttribution> = Vec::new();
    let mut i: usize = 0;
    while i < f.line_attributions.len()
        invariant
            0 <= i <= f.line_attributions@.len(),
            las@ == f.line_attributions@.subrange(0, i as int),
        decreases f.line_attributions@.len() - i,
    {
        let a = &f.line_attributions[i];
        las.push(LineAttribution::new(a.start_line, a.end_line, a.author_id.clone(), a.overridden));
        i = i + 1;
        assert(las@ =~= f.line_attributions@.subrange(0, i as int));
    }
    FileState { content: f.content.clone(), attributions: copy_attributions(&f.attributions), line_attributions: las }
}

fn copy_prompts(m: &StrMap<PromptRecord>) -> (r: StrMap<PromptRecord>)
    ensures
        r@.len() == m@.len(),
        forall|i: int| 0 <= i < r@.len() ==> (#[trigger] r@[i]).0 == m@[i].0 && r@[i].1.same_as(m@[i].1),
{
    let n = m.len();
    let mut out: StrMap<PromptRecord> = StrMap::new();
    let mut i: usize = 0;
    while i < n
        invariant
            0 <= i <= n,
            n == m@.len(),
            crate::str_map::distinct_keys(m@),
            out@.len() == i,
            forall|q: int| 0 <= q < i ==> (#[trigger] out@[q]).0 == m@[q].0 && out@[q].1.same_as(m@[q].1),
        decreases n - i,
    {
        let ghost before = out@;
        assert(!crate::str_map::has_key(before, m@[i as int].0)) by {
            if crate::str_map::has_key(before, m@[i as int].0) {
                let q = choose|q: int| 0 <= q < before.len() && (#[trigger] before[q]).0 == m@[i as int].0;
                assert(m@[q].0 != m@[i as int].0);
            }
        }
        out.insert(m.key_at(i).clone(), m.value_at(i).copy());
        i = i + 1;
    }
    out
}

proof fn lemma_moved_fails(
    fin: Seq<(Seq<char>, String)>,
    src: Seq<(Seq<char>, FileState)>,
    reference: Option<Seq<(Seq<char>, FileState)>>,
    ts: u128,
    n: int,
)
    requires
        0 <= n <= fin.len(),
        moved_files(fin.subrange(0, n), src, reference, ts) is None,
    ensures
        moved_files(fin, src, reference, ts) is None,
    decreases fin.len() - n,
{
    if n < fin.len() {
        assert(fin.subrange(0, n + 1).drop_last() =~= fin.subrange(0, n));
        lemma_moved_fails(fin, src, reference, ts, n + 1);
    } else {
        assert(fin.subrange(0, n) =~= fin);
    }
}

/// Moves a virtual attribution state to new file contents (see
/// `moved_files`), restoring dummy text from `reference` where it can; the
/// prompt records are kept.
pub fn transform_to_final_state(
    source: &VirtualAttributions,
    final_state: &StrMap<String>,
    reference: Option<&VirtualAttributions>,
) -> (r: Result<VirtualAttributions, GitAiError>)
    ensures
        ({
            let rf = match reference {
                Some(v) => Some(v.files@),
                None => None,
            };
            match r {
                Ok(va) => moved_files(final_state@, source.files@, rf, source.ts) == Some(files_view(va.files@))
                    && va.base_commit == source.base_commit && va.ts == source.ts
                    && va.prompts@.len() == source.prompts@.len() && forall|i: int|
                    0 <= i < va.prompts@.len() ==> (#[trigger] va.prompts@[i]).0 == source.prompts@[i].0
                        && va.prompts@[i].1.same_as(source.prompts@[i].1),
                Err(_) => moved_files(final_state@, source.files@, rf, source.ts) is None,
            }
        }),
{
    let ghost rf = match reference {
        Some(v) => Some(v.files@),
        None => None,
    };
    let ghost fin = final_state@;
    let n = final_state.len();
    let mut files: StrMap<FileState> = StrMap::new();
    let mut i: usize = 0;
    assert(fin.subrange(0, 0) =~= Seq::<(Seq<char>, String)>::empty());
    while i < n
        invariant
            0 <= i <= n,
            n == fin.len(),
            fin == final_state@,
            rf == match reference {
                Some(v) => Some(v.files@),
                None => None,
            },
            crate::str_map::distinct_keys(fin),
            moved_files(fin.subrange(0, i as int), source.files@, rf, source.ts) == Some(files_view(files@)),
            forall|q: int| 0 <= q < files@.len() ==> exists|j: int| 0 <= j < i && (#[trigger] fin[j]).0 == (#[trigger] files@[q]).0,
        decreases n - i,
    {
        let path = final_state.key_at(i);
        let content = final_state.value_at(i);
        let ghost done = files_view(files@);
        assert(fin.subrange(0, i + 1).drop_last() =~= fin.subrange(0, i as int));
        assert(fin.subrange(0, i + 1).last() == fin[i as int]);
        assert(!crate::str_map::has_key(files@, path@)) by {
            if crate::str_map::has_key(files@, path@) {
                let q = choose|q: int| 0 <= q < files@.len() && (#[trigger] files@[q]).0 == path@;
                let j = choose|j: int| 0 <= j < i && (#[trigger] fin[j]).0 == (#[trigger] files@[q]).0;
                assert(fin[j].0 != fin[i as int].0);
            }
        }
        let src: Option<&FileState> = source.files.get(path.as_str());
        if content.as_str().unicode_len() == 0 {
            match src {
                Some(f) => {
                    let kept = copy_state(f);
                    files.insert(path.clone(), kept);
                    assert(files_view(files@) =~= done.push((path@, state_view(*f))));
                },
                None => {},
            }
        } else {
            if !crate::line_attribution::line_count_fits(content.as_str()) {
                proof {
                    assert(content@.len() > 0);
                    assert(moved_files(fin.subrange(0, i + 1), source.files@, rf, source.ts) is None);
                    lemma_moved_fails(fin, source.files@, rf, source.ts, i + 1);
                }
                return Err(GitAiError::Mismatch("too many lines".to_string()));
            }
            let src_pair: Option<(&str, &[Attribution])> = match src {
                Some(f) => Some((f.content.as_str(), f.attributions.as_slice())),
                None => None,
            };
            let ref_file: Option<&FileState> = match reference {
                Some(v) => v.files.get(path.as_str()),
                None => None,
            };
            let ref_pair: Option<(&str, &[Attribution])> = match ref_file {
                Some(f) => Some((f.content.as_str(), f.attributions.as_slice())),
                None => None,
            };
            let ghost sp = state_of(source.files@, path@);
            let ghost rp = match rf {
                Some(x) => state_of(x, path@),
                None => None,
            };
            assert(sp == match src_pair {
                Some((c, a)) => Some((c@, attr_views(a@))),
                None => None::<(Seq<char>, Seq<AttrView>)>,
            });
            proof {
                match reference {
                    Some(v) => {
                        assert(rf == Some(v.files@));
                        match ref_file {
                            Some(f) => {
                                assert(lookup(v.files@, path@) == Some(*f));
                            },
                            None => {
                                assert(lookup(v.files@, path@) is None);
                            },
                        }
                    },
                    None => {},
                }
            }
            assert(rp == match ref_pair {
                Some((c, a)) => Some((c@, attr_views(a@))),
                None => None::<(Seq<char>, Seq<AttrView>)>,
            });
            let attrs = match transform_file(src_pair, content.as_str(), ref_pair, source.ts) {
                Ok(a) => a,
                Err(e) => {
                    proof {
                        lemma_moved_fails(fin, source.files@, rf, source.ts, i + 1);
                    }
                    return Err(e);
                },
            };
            let line_attributions = attributions_to_line_attributions(attrs.as_slice(), content.as_str());
            files.insert(
                path.clone(),
                FileState { content: content.clone(), attributions: attrs, line_attributions },
            );
            assert(files_view(files@) =~= done.push((path@, (content@, attr_views(attrs@)))));
        }
        assert forall|q: int| 0 <= q < files@.len() implies exists|j: int| 0 <= j < i + 1 && (#[trigger] fin[j]).0 == (#[trigger] files@[q]).0 by {
            if q < done.len() {
                let j = choose|j: int| 0 <= j < i && (#[trigger] fin[j]).0 == (#[trigger] files@[q]).0;
            } else {
                assert(fin[i as int].0 == files@[q].0);
            }
        }
        i = i + 1;
    }
    assert(fin.subrange(0, n as int) =~= fin);
    Ok(VirtualAttributions {
        base_commit: source.base_commit.clone(),
        ts: source.ts,
        files,
        prompts: copy_prompts(&source.prompts),
    })
}


/// The authorship log of the state for commit `commit_sha`: each file with
/// AI lines gets the consolidated grouping of its line attributions by
/// non-human author; the prompt records keep their totals, get their
/// accepted lines from the result, and those no entry refers to are
/// dropped.
pub fn to_authorship_log(va: &VirtualAttributions, commit_sha: &str) -> (r: AuthorshipLog)
    requires
        forall|i: int| 0 <= i < va.files@.len() ==> attributions_valid((#[trigger] va.files@[i]).1.line_attributions@),
    ensures
        r.metadata.base_commit_sha@ == commit_sha@,
        forall|i: int|
            0 <= i < r.attestations@.len() ==> exists|j: int|
                0 <= j < va.files@.len() && (#[trigger] va.files@[j]).0 == (#[trigger] r.attestations@[i]).file_path@
                    && consolidated_view(grouped(va.files@[j].1.line_attributions@), r.attestations@[i].entries@),
        forall|i: int|
            0 <= i < r.metadata.prompts@.len() ==> crate::str_map::has_key(va.prompts@, (#[trigger] r.metadata.prompts@[i]).0)
                && r.metadata.prompts@[i].1.accepted_lines == capped(file_lines_for(r.attestations@, r.metadata.prompts@[i].0)),
        forall|k: Seq<char>|
            #[trigger] crate::str_map::has_key(r.metadata.prompts@, k) == (crate::str_map::has_key(va.prompts@, k)
                && crate::authorship_log::referenced(r.attestations@, k)),
{
    let mut log = AuthorshipLog::new();
    log.metadata.base_commit_sha = commit_sha.to_string();
    let n = va.files.len();
    let mut i: usize = 0;
    while i < n
        invariant
            0 <= i <= n,
            n == va.files@.len(),
            forall|q: int| 0 <= q < va.files@.len() ==> attributions_valid((#[trigger] va.files@[q]).1.line_attributions@),
            log.metadata.base_commit_sha@ == commit_sha@,
            log.metadata.prompts@ == Seq::<(Seq<char>, PromptRecord)>::empty(),
            log.attestations@.len() == i,
            files_wf(log.attestations@),
            forall|q: int| 0 <= q < i ==> (#[trigger] log.attestations@[q]).file_path@ == va.files@[q].0
                && entries_view(log.attestations@[q].entries@) == grouped(va.files@[q].1.line_attributions@),
        decreases n - i,
    {
        let f = va.files.value_at(i);
        let entries = group_by_author(&f.line_attributions);
        proof {
            crate::authorship_log::lemma_grouped_wf_pub(f.line_attributions@);
        }
        let ghost before = log.attestations@;
        log.attestations.push(FileAttestation { file_path: va.files.key_at(i).clone(), entries });
        proof {
            assert forall|q: int| 0 <= q < log.attestations@.len() implies crate::consolidate::entries_wf((#[trigger] log.attestations@[q]).entries@) by {
                if q == i {
                    let es = log.attestations@[q].entries@;
                    assert forall|j: int| 0 <= j < es.len() implies crate::line_range::all_wf((#[trigger] es[j]).line_ranges@) by {
                        assert(entries_view(es)[j] == (es[j].hash@, es[j].line_ranges@));
                    }
                } else {
                    assert(log.attestations@[q] == before[q]);
                }
            }
        }
        i = i + 1;
    }
    let m = va.prompts.len();
    let mut additions: StrMap<u32> = StrMap::new();
    let mut deletions: StrMap<u32> = StrMap::new();
    let mut k: usize = 0;
    while k < m
        invariant
            0 <= k <= m,
            m == va.prompts@.len(),
            crate::str_map::distinct_keys(va.prompts@),
            log.attestations@.len() == n,
            files_wf(log.attestations@),
            log.metadata.base_commit_sha@ == commit_sha@,
            forall|q: int| 0 <= q < n ==> (#[trigger] log.attestations@[q]).file_path@ == va.files@[q].0
                && entries_view(log.attestations@[q].entries@) == grouped(va.files@[q].1.line_attributions@),
            forall|x: Seq<char>| #[trigger] crate::str_map::has_key(log.metadata.prompts@, x) == exists|q: int| 0 <= q < k && (#[trigger] va.prompts@[q]).0 == x,
        decreases m - k,
    {
        let key = va.prompts.key_at(k);
        let rec = va.prompts.value_at(k);
        let ghost before = log.metadata.prompts@;
        let _ = log.metadata.prompts.len();
        log.metadata.prompts.insert(key.clone(), rec.copy());
        additions.insert(key.clone(), rec.total_additions);
        deletions.insert(key.clone(), rec.total_deletions);
        proof {
            if crate::str_map::has_key(before, key@) {
                let j = choose|j: int| 0 <= j < before.len() && before[j].0 == key@ && log.metadata.prompts@ == before.update(j, (key@, log.metadata.prompts@[j].1));
                assert forall|q: int| 0 <= q < before.len() implies (#[trigger] log.metadata.prompts@[q]).0 == before[q].0 by {}
            } else {
                assert(log.metadata.prompts@.drop_last() == before);
            }
            crate::str_map::lemma_store_keys(before, log.metadata.prompts@, key@);
            assert forall|x: Seq<char>| #[trigger] crate::str_map::has_key(log.metadata.prompts@, x) == exists|q: int| 0 <= q < k + 1 && (#[trigger] va.prompts@[q]).0 == x by {
                if x == key@ {
                    assert(va.prompts@[k as int].0 == x);
                }
                if exists|q: int| 0 <= q < k + 1 && (#[trigger] va.prompts@[q]).0 == x {
                    let q = choose|q: int| 0 <= q < k + 1 && (#[trigger] va.prompts@[q]).0 == x;
                    if q < k {
                        assert(crate::str_map::has_key(before, x));
                    }
                }
            }
        }
        k = k + 1;
    }
    proof {
        assert forall|x: Seq<char>| #[trigger] crate::str_map::has_key(log.metadata.prompts@, x) == crate::str_map::has_key(va.prompts@, x) by {
            if crate::str_map::has_key(va.prompts@, x) {
                let q = choose|q: int| 0 <= q < va.prompts@.len() && (#[trigger] va.prompts@[q]).0 == x;
            }
        }
    }
    let ghost pre = log.attestations@;
    let ghost pre_prompts = log.metadata.prompts@;
    log.finalize(&additions, &deletions);
    proof {
        crate::str_map::lemma_same_keys(log.metadata.prompts@, pre_prompts);
        let atts = log.attestations@;
        assert forall|i: int| 0 <= i < atts.len() implies exists|j: int|
            0 <= j < va.files@.len() && (#[trigger] va.files@[j]).0 == (#[trigger] atts[i]).file_path@
                && consolidated_view(grouped(va.files@[j].1.line_attributions@), atts[i].entries@) by {
            lemma_kept_in_range(pre, i);
            let j = kept_files(pre)[i];
            crate::commit_model::lemma_consolidated_view(pre[j].entries@, atts[i].entries@);
            assert(va.files@[j].0 == atts[i].file_path@);
        }
    }
    let ghost fin_atts = log.attestations@;
    let ghost fin_prompts = log.metadata.prompts@;
    let _ = log.metadata.prompts.len();
    log.cleanup_unused_prompts();
    proof {
        crate::str_map::lemma_filter_keys_pub(fin_prompts, referenced_by(fin_atts));
        let pr = log.metadata.prompts@;
        assert forall|i: int| 0 <= i < pr.len() implies crate::str_map::has_key(va.prompts@, (#[trigger] pr[i]).0)
            && pr[i].1.accepted_lines == capped(file_lines_for(log.attestations@, pr[i].0)) by {
            let x = pr[i].0;
            assert(crate::str_map::has_key(pr, x));
            crate::str_map::lemma_lookup_at(pr, i);
            let q = choose|q: int| 0 <= q < fin_prompts.len() && (#[trigger] fin_prompts[q]).0 == x;
            crate::str_map::lemma_lookup_at(fin_prompts, q);
        }
        assert forall|x: Seq<char>| #[trigger] crate::str_map::has_key(pr, x) == (crate::str_map::has_key(va.prompts@, x)
            && crate::authorship_log::referenced(log.attestations@, x)) by {}
    }
    log
}


proof fn lemma_without_dummy_id(s: Seq<AttrView>)
    requires
        forall|i: int| 0 <= i < s.len() ==> (#[trigger] s[i]).2 != DUMMY_AUTHOR@,
    ensures
        without_dummy(s) == s,
    decreases s.len(),
{
    if s.len() > 0 {
        let t = s.drop_last();
        assert forall|i: int| 0 <= i < t.len() implies (#[trigger] t[i]).2 != DUMMY_AUTHOR@ by {
            assert(t[i] == s[i]);
        }
        lemma_without_dummy_id(t);
        assert(s[s.len() - 1].2 != DUMMY_AUTHOR@);
        assert(t.push(s.last()) =~= s);
    } else {
        assert(s =~= Seq::<AttrView>::empty());
    }
}

/// Moving a file to content identical to the reference state's gives the
/// reference attributions back unchanged (when the line diff is accepted
/// and no reference attribution is marked dummy).
pub proof fn law_identical_content_keeps_attributions(
    source: Option<(Seq<char>, Seq<AttrView>)>,
    content: Seq<char>,
    reference_attrs: Seq<AttrView>,
    ts: u128,
)
    requires
        transformed(source, content, Some((content, reference_attrs)), ts) is Some,
        forall|i: int| 0 <= i < reference_attrs.len() ==> (#[trigger] reference_attrs[i]).2 != DUMMY_AUTHOR@,
    ensures
        transformed(source, content, Some((content, reference_attrs)), ts) == Some(reference_attrs),
{
    lemma_without_dummy_id(reference_attrs);
}

} // verus!
