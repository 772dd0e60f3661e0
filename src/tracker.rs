use vstd::prelude::*;

use crate::error::GitAiError;
use crate::line_stats::{change_views, line_diff, line_diff_of};
use crate::working_log::Attribution;

verus! {

/// An attribution as its interval, author and timestamp.
pub type AttrView = (int, int, Seq<char>, u128);

pub open spec fn attr_view(a: Attribution) -> AttrView {
    (a.start as int, a.end as int, a.author_id@, a.ts)
}

pub open spec fn attr_views(s: Seq<Attribution>) -> Seq<AttrView> {
    s.map_values(|a: Attribution| attr_view(a))
}

/// The byte length of a text, as `str::len` gives it.
pub open spec fn blen(t: Seq<char>) -> int {
    (vstd::utf8::encode_utf8(t).len() as usize) as int
}

/// The parts of `prev` inside `[lo, hi)`, moved by `shift`.
pub open spec fn clip_all(prev: Seq<AttrView>, lo: int, hi: int, shift: int) -> Seq<AttrView>
    decreases prev.len(),
{
    if prev.len() == 0 {
        Seq::empty()
    } else {
        let rest = clip_all(prev.drop_last(), lo, hi, shift);
        let a = prev.last();
        let s = if a.0 > lo {
            a.0
        } else {
            lo
        };
        let e = if a.1 < hi {
            a.1
        } else {
            hi
        };
        if s < e {
            rest.push((s + shift, e + shift, a.2, a.3))
        } else {
            rest
        }
    }
}

/// Walks the line diff with a cursor into the old text and one into the
/// new: kept lines carry their attributions over, deleted lines drop
/// theirs, inserted lines go to `author` at `ts`. Gives both cursors and
/// the attributions so far.
pub open spec fn track(changes: Seq<(u8, Seq<char>)>, prev: Seq<AttrView>, author: Seq<char>, ts: u128) -> (
    int,
    int,
    Seq<AttrView>,
)
    decreases changes.len(),
{
    if changes.len() == 0 {
        (0, 0, Seq::empty())
    } else {
        let (o, n, out) = track(changes.drop_last(), prev, author, ts);
        let (kind, text) = changes.last();
        let len = blen(text);
        if kind == 0 {
            (o + len, n + len, out + clip_all(prev, o, o + len, n - o))
        } else if kind == 1 {
            (o + len, n, out)
        } else if len > 0 {
            (o, n + len, out.push((n, n + len, author, ts)))
        } else {
            (o, n, out)
        }
    }
}

/// Joins each attribution with the one before it when they touch and
/// share an author, keeping the later timestamp.
pub open spec fn coalesce(s: Seq<AttrView>) -> Seq<AttrView>
    decreases s.len(),
{
    if s.len() == 0 {
        Seq::empty()
    } else {
        let c = coalesce(s.drop_last());
        let x = s.last();
        if c.len() > 0 && c.last().1 == x.0 && c.last().2 == x.2 {
            c.update(
                c.len() - 1,
                (
                    c.last().0,
                    x.1,
                    x.2,
                    if c.last().3 >= x.3 {
                        c.last().3
                    } else {
                        x.3
                    },
                ),
            )
        } else {
            c.push(x)
        }
    }
}

proof fn lemma_track_grows(changes: Seq<(u8, Seq<char>)>, prev: Seq<AttrView>, author: Seq<char>, ts: u128, k: int)
    requires
        0 <= k <= changes.len(),
    ensures
        track(changes.subrange(0, k), prev, author, ts).0 <= track(changes, prev, author, ts).0,
        track(changes.subrange(0, k), prev, author, ts).1 <= track(changes, prev, author, ts).1,
        0 <= track(changes.subrange(0, k), prev, author, ts).0,
        0 <= track(changes.subrange(0, k), prev, author, ts).1,
    decreases changes.len() - k,
{
    if k < changes.len() {
        lemma_track_grows(changes, prev, author, ts, k + 1);
        assert(changes.subrange(0, k + 1).drop_last() =~= changes.subrange(0, k));
    } else {
        assert(changes.subrange(0, k) =~= changes);
    }
    lemma_track_nonneg(changes.subrange(0, k), prev, author, ts);
}

proof fn lemma_track_nonneg(changes: Seq<(u8, Seq<char>)>, prev: Seq<AttrView>, author: Seq<char>, ts: u128)
    ensures
        0 <= track(changes, prev, author, ts).0,
        0 <= track(changes, prev, author, ts).1,
    decreases changes.len(),
{
    if changes.len() > 0 {
        lemma_track_nonneg(changes.drop_last(), prev, author, ts);
    }
}

fn clip_into(
    out: &mut Vec<Attribution>,
    prev: &[Attribution],
    lo: usize,
    hi: usize,
    new_lo: usize,
)
    requires
        lo <= hi,
        new_lo + (hi - lo) <= usize::MAX,
    ensures
        attr_views(final(out)@) == attr_views(old(out)@) + clip_all(
            attr_views(prev@),
            lo as int,
            hi as int,
            new_lo - lo,
        ),
{
    let ghost start = attr_views(out@);
    let ghost pv = attr_views(prev@);
    let mut i: usize = 0;
    while i < prev.len()
        invariant
            0 <= i <= prev@.len(),
            lo <= hi,
            new_lo + (hi - lo) <= usize::MAX,
            pv == attr_views(prev@),
            attr_views(out@) == start + clip_all(pv.subrange(0, i as int), lo as int, hi as int, new_lo - lo),
        decreases prev@.len() - i,
    {
        let a = &prev[i];
        let s = if a.start > lo {
            a.start
        } else {
            lo
        };
        let e = if a.end < hi {
            a.end
        } else {
            hi
        };
        let ghost before = attr_views(out@);
        assert(pv.subrange(0, i + 1).drop_last() =~= pv.subrange(0, i as int));
        assert(pv.subrange(0, i + 1).last() == attr_view(*a));
        if s < e {
            out.push(Attribution { start: (s - lo) + new_lo, end: (e - lo) + new_lo, author_id: a.author_id.clone(), ts: a.ts });
            assert(attr_views(out@) =~= before.push(((s - lo) + new_lo, (e - lo) + new_lo, a.author_id@, a.ts)));
        }
        i = i + 1;
    }
    assert(pv.subrange(0, prev@.len() as int) =~= pv);
}

/// The attributions after a line diff, before coalescing; an error when
/// the diff's cursors do not end at the texts' byte lengths.
pub fn track_changes(
    changes: &Vec<(u8, String)>,
    prev: &[Attribution],
    author_id: &str,
    ts: u128,
    old_len: usize,
    new_len: usize,
) -> (r: Option<Vec<Attribution>>)
    ensures
        ({
            let t = track(change_views(changes@), attr_views(prev@), author_id@, ts);
            match r {
                Some(v) => t.0 == old_len && t.1 == new_len && attr_views(v@) == t.2,
                None => !(t.0 == old_len && t.1 == new_len),
            }
        }),
{
    let ghost cv = change_views(changes@);
    let ghost pv = attr_views(prev@);
    let mut out: Vec<Attribution> = Vec::new();
    let mut o: usize = 0;
    let mut n: usize = 0;
    let mut i: usize = 0;
    proof {
        lemma_track_grows(cv, pv, author_id@, ts, 0);
    }
    while i < changes.len()
        invariant
            0 <= i <= changes@.len(),
            cv == change_views(changes@),
            pv == attr_views(prev@),
            (o as int, n as int, attr_views(out@)) == track(cv.subrange(0, i as int), pv, author_id@, ts),
        decreases changes@.len() - i,
    {
        let kind = changes[i].0;
        let text = changes[i].1.as_str();
        let len = text.len();
        assert(len as int == blen(changes@[i as int].1@));
        assert(cv.subrange(0, i + 1).drop_last() =~= cv.subrange(0, i as int));
        assert(cv.subrange(0, i + 1).last() == (kind, changes@[i as int].1@));
        proof {
            lemma_track_grows(cv, pv, author_id@, ts, i + 1);
        }
        if kind == 0 {
            if len > usize::MAX - o || len > usize::MAX - n {
                return None;
            }
            clip_into(&mut out, prev, o, o + len, n);
            o = o + len;
            n = n + len;
        } else if kind == 1 {
            if len > usize::MAX - o {
                return None;
            }
            o = o + len;
        } else {
            if len > usize::MAX - n {
                return None;
            }
            if len > 0 {
                let ghost before = attr_views(out@);
                out.push(Attribution { start: n, end: n + len, author_id: author_id.to_string(), ts });
                assert(attr_views(out@) =~= before.push((n as int, n + len, author_id@, ts)));
            }
            n = n + len;
        }
        i = i + 1;
    }
    assert(cv.subrange(0, changes@.len() as int) =~= cv);
    if o == old_len && n == new_len {
        Some(out)
    } else {
        None
    }
}

pub fn coalesce_attributions(s: Vec<Attribution>) -> (r: Vec<Attribution>)
    ensures
        attr_views(r@) == coalesce(attr_views(s@)),
{
    let ghost sv = attr_views(s@);
    let mut out: Vec<Attribution> = Vec::new();
    let mut i: usize = 0;
    while i < s.len()
        invariant
            0 <= i <= s@.len(),
            sv == attr_views(s@),
            attr_views(out@) == coalesce(sv.subrange(0, i as int)),
        decreases s@.len() - i,
    {
        let x = &s[i];
        assert(sv.subrange(0, i + 1).drop_last() =~= sv.subrange(0, i as int));
        assert(sv.subrange(0, i + 1).last() == attr_view(*x));
        let ghost c = attr_views(out@);
        let k = out.len();
        if k > 0 && out[k - 1].end == x.start && crate::text::str_eq(out[k - 1].author_id.as_str(), x.author_id.as_str()) {
            let start = out[k - 1].start;
            let ts = if out[k - 1].ts >= x.ts {
                out[k - 1].ts
            } else {
                x.ts
            };
            out.set(k - 1, Attribution { start, end: x.end, author_id: x.author_id.clone(), ts });
            assert(attr_views(out@) =~= c.update(c.len() - 1, (c.last().0, x.end as int, x.author_id@, ts)));
        } else {
            out.push(Attribution { start: x.start, end: x.end, author_id: x.author_id.clone(), ts: x.ts });
            assert(attr_views(out@) =~= c.push(attr_view(*x)));
        }
        i = i + 1;
    }
    assert(sv.subrange(0, s@.len() as int) =~= sv);
    out
}

/// The attributions over `new_content` after an edit of
/// `previous_content`: kept text keeps its author and timestamp, deleted
/// text drops out, inserted text goes to `author_id` at `ts`, and touching
/// attributions of one author are joined. Fails when the line diff does
/// not account for both texts' lengths.
pub fn update_attributions(
    previous_content: &str,
    new_content: &str,
    previous_attributions: &[Attribution],
    author_id: &str,
    ts: u128,
) -> (r: Result<Vec<Attribution>, GitAiError>)
    ensures
        ({
            let t = track(
                line_diff_of(previous_content@, new_content@),
                attr_views(previous_attributions@),
                author_id@,
                ts,
            );
            let lengths_agree = t.0 == blen(previous_content@) && t.1 == blen(new_content@);
            match r {
                Ok(v) => lengths_agree && attr_views(v@) == coalesce(t.2),
                Err(_) => !lengths_agree,
            }
        }),
{
    let changes = line_diff(previous_content, new_content);
    let old_len = previous_content.len();
    let new_len = new_content.len();
    assert(old_len as int == blen(previous_content@));
    assert(new_len as int == blen(new_content@));
    match track_changes(&changes, previous_attributions, author_id, ts, old_len, new_len) {
        Some(v) => Ok(coalesce_attributions(v)),
        None => Err(GitAiError::Mismatch("line diff and content lengths disagree".to_string())),
    }
}


/// Non-empty, inside `[0, len)`, in order, not overlapping, and no two
/// neighbours that touch share an author.
pub open spec fn tidy(prev: Seq<AttrView>, len: int) -> bool {
    &&& forall|i: int| 0 <= i < prev.len() ==> 0 <= (#[trigger] prev[i]).0 < prev[i].1 <= len
    &&& forall|i: int, j: int| #![trigger prev[i], prev[j]] 0 <= i < j < prev.len() ==> prev[i].1 <= prev[j].0
    &&& forall|i: int| 0 <= i < prev.len() - 1 ==> !((#[trigger] prev[i]).1 == prev[i + 1].0 && prev[i].2 == prev[i + 1].2)
}

proof fn lemma_tidy_prefix(prev: Seq<AttrView>, len: int)
    requires
        tidy(prev, len),
        prev.len() > 0,
    ensures
        tidy(prev.drop_last(), len),
{
    let t = prev.drop_last();
    assert forall|i: int| 0 <= i < t.len() implies 0 <= (#[trigger] t[i]).0 < t[i].1 <= len by {
        assert(t[i] == prev[i]);
    }
    assert forall|i: int, j: int| #![trigger t[i], t[j]] 0 <= i < j < t.len() implies t[i].1 <= t[j].0 by {
        assert(prev[i].1 <= prev[j].0);
    }
    assert forall|i: int| 0 <= i < t.len() - 1 implies !((#[trigger] t[i]).1 == t[i + 1].0 && t[i].2 == t[i + 1].2) by {
        assert(t[i] == prev[i] && t[i + 1] == prev[i + 1]);
    }
}

proof fn lemma_clip_whole(prev: Seq<AttrView>, len: int)
    requires
        tidy(prev, len),
    ensures
        clip_all(prev, 0, len, 0) == prev,
    decreases prev.len(),
{
    if prev.len() > 0 {
        lemma_tidy_prefix(prev, len);
        lemma_clip_whole(prev.drop_last(), len);
        let a = prev[prev.len() - 1];
        assert(0 <= a.0 < a.1 <= len);
        assert(prev.drop_last().push(prev.last()) =~= prev);
    } else {
        assert(prev =~= Seq::<AttrView>::empty());
    }
}

proof fn lemma_coalesce_tidy(prev: Seq<AttrView>, len: int)
    requires
        tidy(prev, len),
    ensures
        coalesce(prev) == prev,
    decreases prev.len(),
{
    if prev.len() > 0 {
        lemma_tidy_prefix(prev, len);
        lemma_coalesce_tidy(prev.drop_last(), len);
        if prev.len() > 1 {
            assert(!(prev[prev.len() - 2].1 == prev[prev.len() - 1].0 && prev[prev.len() - 2].2 == prev[prev.len() - 1].2));
        }
        assert(prev.drop_last().push(prev.last()) =~= prev);
    } else {
        assert(prev =~= Seq::<AttrView>::empty());
    }
}

/// When the whole text is one kept line, tracking returns attributions
/// that are already tidy unchanged, and both cursors end at its length.
pub proof fn law_single_kept_line_identity(text: Seq<char>, prev: Seq<AttrView>, author: Seq<char>, ts: u128)
    requires
        tidy(prev, blen(text)),
    ensures
        ({
            let t = track(seq![(0u8, text)], prev, author, ts);
            &&& t.0 == blen(text) && t.1 == blen(text)
            &&& coalesce(t.2) == prev
        }),
{
    let cs = seq![(0u8, text)];
    assert(cs.drop_last() =~= Seq::<(u8, Seq<char>)>::empty());
    assert(track(cs.drop_last(), prev, author, ts) == (0int, 0int, Seq::<AttrView>::empty()));
    assert(cs.last() == (0u8, text));
    assert(track(cs, prev, author, ts) == (
        0 + blen(text),
        0 + blen(text),
        Seq::<AttrView>::empty() + clip_all(prev, 0, 0 + blen(text), 0 - 0),
    ));
    lemma_clip_whole(prev, blen(text));
    lemma_coalesce_tidy(prev, blen(text));
    assert(Seq::<AttrView>::empty() + clip_all(prev, 0, blen(text), 0) =~= prev);
}


/// Scanning attributions in order with a cursor: each gap before an
/// attribution becomes a `fallback` attribution at `ts`.
pub open spec fn fill_scan(prev: Seq<AttrView>, fallback: Seq<char>, ts: u128) -> (int, Seq<AttrView>)
    decreases prev.len(),
{
    if prev.len() == 0 {
        (0, Seq::empty())
    } else {
        let (c, out) = fill_scan(prev.drop_last(), fallback, ts);
        let a = prev.last();
        let with_gap = if a.0 > c {
            out.push((c, a.0, fallback, ts))
        } else {
            out
        };
        (if a.1 > c { a.1 } else { c }, with_gap.push(a))
    }
}

/// The attributions with every uncovered span of `[0, len)` given to
/// `fallback` at `ts`.
pub open spec fn filled(prev: Seq<AttrView>, len: int, fallback: Seq<char>, ts: u128) -> Seq<AttrView> {
    let (c, out) = fill_scan(prev, fallback, ts);
    if c < len {
        out.push((c, len, fallback, ts))
    } else {
        out
    }
}

/// Gives every byte of `content` that no attribution covers to
/// `fallback_author` at `ts`.
pub fn attribute_unattributed_ranges(
    content: &str,
    attributions: &[Attribution],
    fallback_author: &str,
    ts: u128,
) -> (r: Vec<Attribution>)
    ensures
        attr_views(r@) == filled(attr_views(attributions@), blen(content@), fallback_author@, ts),
{
    let len = content.len();
    assert(len as int == blen(content@));
    let ghost pv = attr_views(attributions@);
    let mut out: Vec<Attribution> = Vec::new();
    let mut cursor: usize = 0;
    let mut i: usize = 0;
    while i < attributions.len()
        invariant
            0 <= i <= attributions@.len(),
            pv == attr_views(attributions@),
            (cursor as int, attr_views(out@)) == fill_scan(pv.subrange(0, i as int), fallback_author@, ts),
        decreases attributions@.len() - i,
    {
        let a = &attributions[i];
        assert(pv.subrange(0, i + 1).drop_last() =~= pv.subrange(0, i as int));
        assert(pv.subrange(0, i + 1).last() == attr_view(*a));
        let ghost before = attr_views(out@);
        if a.start > cursor {
            out.push(Attribution { start: cursor, end: a.start, author_id: fallback_author.to_string(), ts });
        }
        let ghost mid = attr_views(out@);
        assert(mid == if a.start > cursor {
            before.push((cursor as int, a.start as int, fallback_author@, ts))
        } else {
            before
        }) by {
            if a.start > cursor {
                assert(mid =~= before.push((cursor as int, a.start as int, fallback_author@, ts)));
            }
        }
        out.push(Attribution { start: a.start, end: a.end, author_id: a.author_id.clone(), ts: a.ts });
        assert(attr_views(out@) =~= mid.push(attr_view(*a)));
        if a.end > cursor {
            cursor = a.end;
        }
        i = i + 1;
    }
    assert(pv.subrange(0, attributions@.len() as int) =~= pv);
    if cursor < len {
        let ghost before = attr_views(out@);
        out.push(Attribution { start: cursor, end: len, author_id: fallback_author.to_string(), ts });
        assert(attr_views(out@) =~= before.push((cursor as int, len as int, fallback_author@, ts)));
    }
    out
}

} // verus!
