use vstd::prelude::*;

use crate::consolidate::{compare_str, str_lt};
use crate::tracker::{attr_view, attr_views, AttrView};
use crate::working_log::{Attribution, LineAttribution};

verus! {

/// The byte spans of the lines of `b`: each ends after a newline or at the
/// end of the text.
pub open spec fn line_spans(b: Seq<u8>) -> Seq<(int, int)>
    decreases b.len(),
{
    if b.len() == 0 {
        Seq::empty()
    } else {
        let p = line_spans(b.drop_last());
        let i = b.len() - 1;
        if p.len() == 0 || b[p.last().1 - 1] == 10 {
            p.push((i, i + 1))
        } else {
            p.update(p.len() - 1, (p.last().0, i + 1))
        }
    }
}

/// Bytes of `a` inside `[lo, hi)`.
pub open spec fn overlap(a: AttrView, lo: int, hi: int) -> int {
    let s = if a.0 > lo { a.0 } else { lo };
    let e = if a.1 < hi { a.1 } else { hi };
    if s < e { e - s } else { 0 }
}

/// Bytes of `[lo, hi)` that `author` owns.
pub open spec fn author_bytes(attrs: Seq<AttrView>, author: Seq<char>, lo: int, hi: int) -> int
    decreases attrs.len(),
{
    if attrs.len() == 0 {
        0
    } else {
        author_bytes(attrs.drop_last(), author, lo, hi) + if attrs.last().2 == author {
            overlap(attrs.last(), lo, hi)
        } else {
            0
        }
    }
}

/// The latest timestamp of `author`'s attributions touching `[lo, hi)`.
pub open spec fn author_ts(attrs: Seq<AttrView>, author: Seq<char>, lo: int, hi: int) -> u128
    decreases attrs.len(),
{
    if attrs.len() == 0 {
        0
    } else {
        let rest = author_ts(attrs.drop_last(), author, lo, hi);
        let a = attrs.last();
        if a.2 == author && overlap(a, lo, hi) > 0 && a.3 > rest {
            a.3
        } else {
            rest
        }
    }
}

/// Whether `x` beats `y` for a line: more bytes, then a later timestamp,
/// then the smaller author id.
pub open spec fn beats(x: (Seq<char>, int, u128), y: (Seq<char>, int, u128)) -> bool {
    x.1 > y.1 || (x.1 == y.1 && (x.2 > y.2 || (x.2 == y.2 && str_lt(x.0, y.0))))
}

/// The owner of `[lo, hi)` among the first `k` attributions.
pub open spec fn owner_upto(attrs: Seq<AttrView>, k: int, lo: int, hi: int) -> Option<(Seq<char>, int, u128)>
    decreases k,
{
    if k <= 0 || k > attrs.len() {
        None
    } else {
        let best = owner_upto(attrs, k - 1, lo, hi);
        let a = attrs[k - 1];
        if overlap(a, lo, hi) > 0 {
            let cand = (a.2, author_bytes(attrs, a.2, lo, hi), author_ts(attrs, a.2, lo, hi));
            match best {
                None => Some(cand),
                Some(b) => if beats(cand, b) {
                    Some(cand)
                } else {
                    Some(b)
                },
            }
        } else {
            best
        }
    }
}

/// The author owning a line, if any attribution touches it.
pub open spec fn line_owner(attrs: Seq<AttrView>, span: (int, int)) -> Option<Seq<char>> {
    match owner_upto(attrs, attrs.len() as int, span.0, span.1) {
        Some(o) => Some(o.0),
        None => None,
    }
}

/// Runs of consecutive lines (numbered from 1) with the same owner.
pub open spec fn owner_runs(owners: Seq<Option<Seq<char>>>) -> Seq<(int, int, Seq<char>)>
    decreases owners.len(),
{
    if owners.len() == 0 {
        Seq::empty()
    } else {
        let rest = owner_runs(owners.drop_last());
        let n = owners.len() as int;
        match owners.last() {
            None => rest,
            Some(a) => if rest.len() > 0 && rest.last().1 == n - 1 && rest.last().2 == a {
                rest.update(rest.len() - 1, (rest.last().0, n, a))
            } else {
                rest.push((n, n, a))
            },
        }
    }
}

pub open spec fn line_attr_view(l: LineAttribution) -> (int, int, Seq<char>) {
    (l.start_line as int, l.end_line as int, l.author_id@)
}

proof fn lemma_overlap_bound(a: AttrView, lo: int, hi: int)
    requires
        lo <= hi,
    ensures
        0 <= overlap(a, lo, hi) <= hi - lo,
{
}

fn bytes_of(attrs: &[Attribution], author: &String, lo: usize, hi: usize) -> (r: (u128, u128))
    requires
        lo <= hi,
    ensures
        r.0 as int == author_bytes(attr_views(attrs@), author@, lo as int, hi as int),
        r.1 == author_ts(attr_views(attrs@), author@, lo as int, hi as int),
{
    let ghost av = attr_views(attrs@);
    let mut total: u128 = 0;
    let mut ts: u128 = 0;
    let mut i: usize = 0;
    while i < attrs.len()
        invariant
            0 <= i <= attrs@.len(),
            lo <= hi,
            av == attr_views(attrs@),
            total as int == author_bytes(av.subrange(0, i as int), author@, lo as int, hi as int),
            total <= i as int * usize::MAX as int,
            ts == author_ts(av.subrange(0, i as int), author@, lo as int, hi as int),
        decreases attrs@.len() - i,
    {
        let a = &attrs[i];
        assert(av.subrange(0, i + 1).drop_last() =~= av.subrange(0, i as int));
        assert(av.subrange(0, i + 1).last() == attr_view(*a));
        let s = if a.start > lo { a.start } else { lo };
        let e = if a.end < hi { a.end } else { hi };
        let ov: usize = if s < e { e - s } else { 0 };
        assert(ov as int == overlap(attr_view(*a), lo as int, hi as int));
        proof {
            assert((i as int) * (usize::MAX as int) + usize::MAX as int == (i as int + 1) * (usize::MAX as int))
                by (nonlinear_arith);
            assert((i as int + 1) * (usize::MAX as int) <= (usize::MAX as int) * (usize::MAX as int) + usize::MAX as int)
                by (nonlinear_arith)
                requires
                    i < usize::MAX,
            ;
            assert((usize::MAX as int) * (usize::MAX as int) + usize::MAX as int <= u128::MAX) by (nonlinear_arith);
        }
        if crate::text::str_eq(a.author_id.as_str(), author.as_str()) {
            total = total + ov as u128;
            if ov > 0 && a.ts > ts {
                ts = a.ts;
            }
        }
        i = i + 1;
    }
    assert(av.subrange(0, attrs@.len() as int) =~= av);
    (total, ts)
}

/// The owner of the byte span `[lo, hi)`, with its bytes and timestamp.
fn owner_of_span(attrs: &[Attribution], lo: usize, hi: usize) -> (r: Option<(String, u128, u128)>)
    requires
        lo <= hi,
    ensures
        match r {
            Some((a, n, t)) => owner_upto(attr_views(attrs@), attrs@.len() as int, lo as int, hi as int)
                == Some((a@, n as int, t)),
            None => owner_upto(attr_views(attrs@), attrs@.len() as int, lo as int, hi as int) is None,
        },
{
    let ghost av = attr_views(attrs@);
    let mut best: Option<(String, u128, u128)> = None;
    let mut k: usize = 0;
    while k < attrs.len()
        invariant
            0 <= k <= attrs@.len(),
            lo <= hi,
            av == attr_views(attrs@),
            match best {
                Some((a, n, t)) => owner_upto(av, k as int, lo as int, hi as int) == Some((a@, n as int, t)),
                None => owner_upto(av, k as int, lo as int, hi as int) is None,
            },
        decreases attrs@.len() - k,
    {
        let a = &attrs[k];
        assert(av[k as int] == attr_view(*a));
        let s = if a.start > lo { a.start } else { lo };
        let e = if a.end < hi { a.end } else { hi };
        if s < e {
            let (n, t) = bytes_of(attrs, &a.author_id, lo, hi);
            let take = match &best {
                None => true,
                Some((b, bn, bt)) => n > *bn || (n == *bn && (t > *bt || (t == *bt && compare_str(
                    a.author_id.as_str(),
                    b.as_str(),
                ) < 0))),
            };
            if take {
                best = Some((a.author_id.clone(), n, t));
            }
        }
        k = k + 1;
    }
    best
}

/// Byte spans of the lines of `b`.
fn spans_of(b: &[u8]) -> (r: Vec<(usize, usize)>)
    ensures
        r@.map_values(|x: (usize, usize)| (x.0 as int, x.1 as int)) == line_spans(b@),
        forall|k: int| 0 <= k < r@.len() ==> (#[trigger] r@[k]).0 <= r@[k].1,
{
    let mut out: Vec<(usize, usize)> = Vec::new();
    let mut i: usize = 0;
    while i < b.len()
        invariant
            0 <= i <= b@.len(),
            out@.map_values(|x: (usize, usize)| (x.0 as int, x.1 as int)) == line_spans(b@.subrange(0, i as int)),
            forall|k: int| 0 <= k < out@.len() ==> (#[trigger] out@[k]).0 <= out@[k].1 && out@[k].1 <= i,
            out@.len() > 0 ==> out@.last().1 == i,
        decreases b@.len() - i,
    {
        let ghost pre = b@.subrange(0, i as int);
        let ghost p = line_spans(pre);
        let ghost ov = out@.map_values(|x: (usize, usize)| (x.0 as int, x.1 as int));
        assert(b@.subrange(0, i + 1).drop_last() =~= pre);
        let n = out.len();
        if n == 0 || b[out[n - 1].1 - 1] == 10 {
            assert(n > 0 ==> pre[p.last().1 - 1] == b@[out@[n - 1].1 - 1]);
            out.push((i, i + 1));
            assert(out@.map_values(|x: (usize, usize)| (x.0 as int, x.1 as int)) =~= p.push((i as int, i + 1)));
        } else {
            assert(pre[p.last().1 - 1] == b@[out@[n - 1].1 - 1]);
            let first = out[n - 1].0;
            out.set(n - 1, (first, i + 1));
            assert(out@.map_values(|x: (usize, usize)| (x.0 as int, x.1 as int)) =~= p.update(
                p.len() - 1,
                (p.last().0, i + 1),
            ));
        }
        i = i + 1;
    }
    assert(b@.subrange(0, b@.len() as int) =~= b@);
    out
}

/// The line attributions of a text: each line goes to the author owning
/// the most of its bytes (then the latest timestamp, then the smaller
/// author id), lines no attribution touches go to nobody, and runs of
/// consecutive lines with one owner become one line attribution.
pub fn attributions_to_line_attributions(attributions: &[Attribution], content: &str) -> (r: Vec<LineAttribution>)
    requires
        line_spans(vstd::utf8::encode_utf8(content@)).len() <= u32::MAX,
    ensures
        r@.map_values(|l: LineAttribution| line_attr_view(l)) == owner_runs(
            Seq::new(
                line_spans(vstd::utf8::encode_utf8(content@)).len(),
                |k: int| line_owner(attr_views(attributions@), line_spans(vstd::utf8::encode_utf8(content@))[k]),
            ),
        ),
        forall|i: int| 0 <= i < r@.len() ==> !(#[trigger] r@[i]).overridden,
{
    let bytes = content.as_bytes();
    assert(bytes@ == vstd::utf8::encode_utf8(content@));
    let spans = spans_of(bytes);
    let ghost sv = line_spans(vstd::utf8::encode_utf8(content@));
    let ghost owners = Seq::new(sv.len(), |k: int| line_owner(attr_views(attributions@), sv[k]));
    let mut out: Vec<LineAttribution> = Vec::new();
    let mut k: usize = 0;
    while k < spans.len()
        invariant
            0 <= k <= spans@.len(),
            spans@.len() == sv.len(),
            sv.len() <= u32::MAX,
            spans@.map_values(|x: (usize, usize)| (x.0 as int, x.1 as int)) == sv,
            forall|q: int| 0 <= q < spans@.len() ==> (#[trigger] spans@[q]).0 <= spans@[q].1,
            owners == Seq::new(sv.len(), |q: int| line_owner(attr_views(attributions@), sv[q])),
            out@.map_values(|l: LineAttribution| line_attr_view(l)) == owner_runs(owners.subrange(0, k as int)),
            forall|i: int| 0 <= i < out@.len() ==> !(#[trigger] out@[i]).overridden,
            forall|i: int| 0 <= i < out@.len() ==> (#[trigger] out@[i]).end_line <= k,
        decreases spans@.len() - k,
    {
        let (lo, hi) = spans[k];
        assert(sv[k as int] == (lo as int, hi as int));
        let owner = owner_of_span(attributions, lo, hi);
        let line = (k + 1) as u32;
        let ghost before = out@.map_values(|l: LineAttribution| line_attr_view(l));
        assert(owners.subrange(0, k + 1).drop_last() =~= owners.subrange(0, k as int));
        assert(owners.subrange(0, k + 1).last() == owners[k as int]);
        match owner {
            None => {},
            Some((author, _, _)) => {
                let n = out.len();
                if n > 0 && out[n - 1].end_line == line - 1 && crate::text::str_eq(out[n - 1].author_id.as_str(), author.as_str()) {
                    let start = out[n - 1].start_line;
                    out.set(n - 1, LineAttribution::new(start, line, author, false));
                    assert(out@.map_values(|l: LineAttribution| line_attr_view(l)) =~= before.update(
                        before.len() - 1,
                        (before.last().0, k + 1, author@),
                    ));
                } else {
                    out.push(LineAttribution::new(line, line, author, false));
                    assert(out@.map_values(|l: LineAttribution| line_attr_view(l)) =~= before.push(
                        (k + 1, k + 1, author@),
                    ));
                }
            },
        }
        k = k + 1;
    }
    assert(owners.subrange(0, spans@.len() as int) =~= owners);
    out
}


/// Whether the text's line numbers fit in `u32`.
pub fn line_count_fits(content: &str) -> (r: bool)
    ensures
        r == (line_spans(vstd::utf8::encode_utf8(content@)).len() <= u32::MAX),
{
    let bytes = content.as_bytes();
    assert(bytes@ == vstd::utf8::encode_utf8(content@));
    let spans = spans_of(bytes);
    assert(spans@.map_values(|x: (usize, usize)| (x.0 as int, x.1 as int)).len() == spans@.len());
    spans.len() <= u32::MAX as usize
}

} // verus!
