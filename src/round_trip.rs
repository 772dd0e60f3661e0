use vstd::prelude::*;

use crate::diff::{first_index, lemma_first_index};
use crate::line_range::{sorted_by_start, stable_sort, LineRange};
use crate::serialization::{
    authorship_parts, close_file, divider_at, entry_line, is_divider_line, join_nl, join_ranges,
    joined, parse_piece, parse_pieces, path_line, quoted, range_text, ranges_of_text, scan_line,
    section_lines, section_of, section_scan, section_text, split_on, trim_end_spec, FileView,
};
use crate::text::{decimal, is_digit, is_ws, lemma_decimal, lemma_parse_decimal, lines_spec, split_nl, starts_with, strip_cr};

verus! {

proof fn lemma_wf_prefix(rs: Seq<LineRange>)
    requires
        crate::line_range::all_wf(rs),
        rs.len() > 0,
    ensures
        crate::line_range::all_wf(rs.drop_last()),
        rs.last().wf(),
{
    assert forall|i: int| 0 <= i < rs.drop_last().len() implies (#[trigger] rs.drop_last()[i]).wf() by {
        assert(rs.drop_last()[i] == rs[i]);
    }
    assert(rs[rs.len() - 1].wf());
}

/// Without the character `c`.
pub open spec fn free_of(s: Seq<char>, c: char) -> bool {
    forall|i: int| 0 <= i < s.len() ==> s[i] != c
}

proof fn lemma_split_single(s: Seq<char>, c: char)
    requires
        free_of(s, c),
    ensures
        split_on(s, c) == seq![s],
    decreases s.len(),
{
    if s.len() > 0 {
        let t = s.drop_last();
        assert(free_of(t, c)) by {
            assert forall|i: int| 0 <= i < t.len() implies t[i] != c by {
                assert(t[i] == s[i]);
            }
        }
        lemma_split_single(t, c);
        assert(t.push(s.last()) =~= s);
        assert(seq![t].update(0, t.push(s.last())) =~= seq![s]);
    } else {
        assert(s =~= Seq::<char>::empty());
    }
}

proof fn lemma_split_len(s: Seq<char>, c: char)
    ensures
        split_on(s, c).len() >= 1,
    decreases s.len(),
{
    if s.len() > 0 {
        lemma_split_len(s.drop_last(), c);
    }
}

/// Splitting at a separator splits the two sides apart.
proof fn lemma_split_concat(a: Seq<char>, b: Seq<char>, c: char)
    ensures
        split_on(a + seq![c] + b, c) == split_on(a, c) + split_on(b, c),
    decreases b.len(),
{
    lemma_split_len(a, c);
    lemma_split_len(b, c);
    if b.len() == 0 {
        assert(a + seq![c] + b =~= (a + seq![c]));
        assert((a + seq![c]).drop_last() =~= a);
        assert(split_on(a, c) + seq![Seq::<char>::empty()] =~= split_on(a, c).push(Seq::<char>::empty()));
    } else {
        let bt = b.drop_last();
        let x = b.last();
        lemma_split_concat(a, bt, c);
        lemma_split_len(bt, c);
        let s = a + seq![c] + b;
        assert(s.drop_last() =~= a + seq![c] + bt);
        assert(s.last() == x);
        let pa = split_on(a, c);
        let pb = split_on(bt, c);
        if x == c {
            assert((pa + pb).push(Seq::<char>::empty()) =~= pa + pb.push(Seq::<char>::empty()));
        } else {
            assert((pa + pb).update((pa + pb).len() - 1, (pa + pb).last().push(x)) =~= pa + pb.update(
                pb.len() - 1,
                pb.last().push(x),
            ));
        }
    }
}

/// The newline split of `str::lines` is the split at `'\n'`.
pub proof fn lemma_split_nl_is_split_on(s: Seq<char>)
    ensures
        split_nl(s) == split_on(s, '\n'),
    decreases s.len(),
{
    if s.len() > 0 {
        lemma_split_nl_is_split_on(s.drop_last());
    }
}

proof fn lemma_decimal_free(n: nat, c: char)
    requires
        !is_digit(c),
    ensures
        free_of(decimal(n), c),
        decimal(n).len() > 0,
        is_digit(decimal(n).last()),
{
    lemma_decimal(n);
    assert(is_digit(decimal(n)[decimal(n).len() - 1]));
}

proof fn lemma_range_pair(a: u32, b: u32)
    requires
        a <= b,
    ensures
        free_of(range_text(LineRange::Range(a, b)), ','),
        range_text(LineRange::Range(a, b)).len() > 0,
        is_digit(range_text(LineRange::Range(a, b)).last()),
        parse_piece(range_text(LineRange::Range(a, b))) == Some(LineRange::Range(a, b)),
{
    reveal(parse_piece);
    lemma_decimal_free(a as nat, ',');
    lemma_decimal_free(b as nat, ',');
    lemma_decimal_free(a as nat, '-');
    lemma_parse_decimal(a);
    lemma_parse_decimal(b);
    let da = decimal(a as nat);
    let db = decimal(b as nat);
    let t = da + seq!['-'] + db;
    assert forall|i: int| 0 <= i < t.len() implies t[i] != ',' by {
        if i < da.len() {
            assert(t[i] == da[i]);
        } else if i > da.len() {
            assert(t[i] == db[i - da.len() - 1]);
        }
    }
    assert forall|j: int| 0 <= j < da.len() implies t[j] != '-' by {
        assert(t[j] == da[j]);
    }
    lemma_first_index(t, '-', da.len() as int);
    assert(t.subrange(0, da.len() as int) =~= da);
    assert(t.subrange(da.len() as int + 1, t.len() as int) =~= db);
    assert(t.last() == db.last());
}

proof fn lemma_range_text(r: LineRange)
    requires
        r.wf(),
    ensures
        free_of(range_text(r), ','),
        range_text(r).len() > 0,
        is_digit(range_text(r).last()),
        parse_piece(range_text(r)) == Some(r),
{
    match r {
        LineRange::Single(n) => {
            reveal(parse_piece);
            lemma_decimal_free(n as nat, ',');
            lemma_decimal_free(n as nat, '-');
            lemma_parse_decimal(n);
            let t = decimal(n as nat);
            assert(first_index(t, '-') is None);
        },
        LineRange::Range(a, b) => {
            lemma_range_pair(a, b);
        },
    }
}

proof fn lemma_join_ranges_split(rs: Seq<LineRange>)
    requires
        rs.len() > 0,
        crate::line_range::all_wf(rs),
    ensures
        split_on(join_ranges(rs), ',') == Seq::new(rs.len(), |i: int| range_text(rs[i])),
    decreases rs.len(),
{
    if rs.len() > 0 {
        lemma_wf_prefix(rs);
    }
    lemma_range_text(rs.last());
    if rs.len() == 1 {
        lemma_split_single(range_text(rs[0]), ',');
        assert(seq![range_text(rs[0])] =~= Seq::new(rs.len(), |i: int| range_text(rs[i])));
    } else {
        let t = rs.drop_last();
        lemma_join_ranges_split(t);
        lemma_split_concat(join_ranges(t), range_text(rs.last()), ',');
        lemma_split_single(range_text(rs.last()), ',');
        assert(Seq::new(t.len(), |i: int| range_text(t[i])) + seq![range_text(rs.last())] =~= Seq::new(
            rs.len(),
            |i: int| range_text(rs[i]),
        ));
    }
}

proof fn lemma_parse_texts(rs: Seq<LineRange>)
    requires
        crate::line_range::all_wf(rs),
    ensures
        parse_pieces(Seq::new(rs.len(), |i: int| range_text(rs[i]))) == Some(rs),
    decreases rs.len(),
{
    if rs.len() > 0 {
        lemma_wf_prefix(rs);
    }
    if rs.len() > 0 {
        let t = rs.drop_last();
        lemma_parse_texts(t);
        let ps = Seq::new(rs.len(), |i: int| range_text(rs[i]));
        assert(ps.drop_last() =~= Seq::new(t.len(), |i: int| range_text(t[i])));
        lemma_range_text(rs.last());
        assert(ps.last() == range_text(rs.last()));
        assert(t.push(rs.last()) =~= rs);
    } else {
        assert(rs =~= Seq::<LineRange>::empty());
    }
}

/// Reading back the text of a non-empty list of ranges gives the list.
pub proof fn lemma_ranges_round_trip(rs: Seq<LineRange>)
    requires
        rs.len() > 0,
        crate::line_range::all_wf(rs),
    ensures
        ranges_of_text(join_ranges(rs)) == Some(rs),
        join_ranges(rs).len() > 0,
        is_digit(join_ranges(rs).last()),
        free_of(join_ranges(rs), ' '),
        free_of(join_ranges(rs), '\n'),
{
    lemma_join_ranges_split(rs);
    lemma_parse_texts(rs);
    lemma_join_facts(rs);
}

proof fn lemma_join_facts(rs: Seq<LineRange>)
    requires
        rs.len() > 0,
        crate::line_range::all_wf(rs),
    ensures
        join_ranges(rs).len() > 0,
        is_digit(join_ranges(rs).last()),
        free_of(join_ranges(rs), ' '),
        free_of(join_ranges(rs), '\n'),
    decreases rs.len(),
{
    if rs.len() > 0 {
        lemma_wf_prefix(rs);
    }
    lemma_range_text_chars(rs.last());
    if rs.len() > 1 {
        let t = rs.drop_last();
        lemma_join_facts(t);
        let a = join_ranges(t);
        let b = range_text(rs.last());
        let j = a + seq![','] + b;
        assert forall|i: int| 0 <= i < j.len() implies j[i] != ' ' && j[i] != '\n' by {
            if i < a.len() {
                assert(j[i] == a[i]);
            } else if i > a.len() {
                assert(j[i] == b[i - a.len() - 1]);
            }
        }
        assert(j.last() == b.last());
    }
}

proof fn lemma_range_text_chars(r: LineRange)
    requires
        r.wf(),
    ensures
        free_of(range_text(r), ' '),
        free_of(range_text(r), '\n'),
        range_text(r).len() > 0,
        is_digit(range_text(r).last()),
{
    lemma_range_text(r);
    match r {
        LineRange::Single(n) => {
            lemma_decimal_free(n as nat, ' ');
            lemma_decimal_free(n as nat, '\n');
        },
        LineRange::Range(a, b) => {
            lemma_decimal_free(a as nat, ' ');
            lemma_decimal_free(a as nat, '\n');
            lemma_decimal_free(b as nat, ' ');
            lemma_decimal_free(b as nat, '\n');
            let da = decimal(a as nat);
            let db = decimal(b as nat);
            let t = da + seq!['-'] + db;
            assert forall|i: int| 0 <= i < t.len() implies t[i] != ' ' && t[i] != '\n' by {
                if i < da.len() {
                    assert(t[i] == da[i]);
                } else if i > da.len() {
                    assert(t[i] == db[i - da.len() - 1]);
                }
            }
        },
    }
}

/// A list already ordered by first line is its own stable sort.
pub proof fn lemma_stable_sort_sorted(rs: Seq<LineRange>)
    requires
        sorted_by_start(rs),
    ensures
        stable_sort(rs) == rs,
    decreases rs.len(),
{
    if rs.len() > 0 {
        let t = rs.drop_last();
        assert(sorted_by_start(t)) by {
            assert forall|a: int, b: int| #![trigger t[a], t[b]] 0 <= a < b < t.len() implies t[a].lo() <= t[b].lo() by {
                assert(rs[a].lo() <= rs[b].lo());
            }
        }
        lemma_stable_sort_sorted(t);
        if t.len() > 0 {
            assert(rs[t.len() - 1].lo() <= rs[rs.len() - 1].lo());
        }
        assert(t.push(rs.last()) =~= rs);
    }
}


/// A line that `str::lines` gives back unchanged.
pub open spec fn plain_line(l: Seq<char>) -> bool {
    free_of(l, '\n') && (l.len() == 0 || l.last() != '\r')
}

proof fn lemma_split_joined(ls: Seq<Seq<char>>, rest: Seq<char>)
    requires
        forall|i: int| 0 <= i < ls.len() ==> plain_line(#[trigger] ls[i]),
    ensures
        split_on(joined(ls) + rest, '\n') == ls + split_on(rest, '\n'),
    decreases ls.len(),
{
    if ls.len() == 0 {
        assert(joined(ls) + rest =~= rest);
        assert(ls + split_on(rest, '\n') =~= split_on(rest, '\n'));
    } else {
        let t = ls.drop_last();
        let l = ls.last();
        assert(plain_line(ls[ls.len() - 1]));
        let r2 = l + seq!['\n'] + rest;
        assert forall|i: int| 0 <= i < t.len() implies plain_line(#[trigger] t[i]) by {
            assert(t[i] == ls[i]);
        }
        lemma_split_joined(t, r2);
        assert(joined(ls) + rest =~= joined(t) + r2);
        lemma_split_concat(l, rest, '\n');
        lemma_split_single(l, '\n');
        assert(t + (seq![l] + split_on(rest, '\n')) =~= ls + split_on(rest, '\n'));
    }
}

/// `str::lines` on lines joined with newlines, then more text.
pub proof fn lemma_lines_joined(ls: Seq<Seq<char>>, rest: Seq<char>)
    requires
        forall|i: int| 0 <= i < ls.len() ==> plain_line(#[trigger] ls[i]),
    ensures
        lines_spec(joined(ls) + rest) == ls + lines_spec(rest),
{
    let x = joined(ls) + rest;
    lemma_split_nl_is_split_on(x);
    lemma_split_nl_is_split_on(rest);
    lemma_split_joined(ls, rest);
    lemma_split_len(rest, '\n');
    let q = split_on(rest, '\n');
    let p = ls + q;
    let ended = Seq::new((p.len() - 1) as nat, |i: int| strip_cr(p[i]));
    let ended_r = Seq::new((q.len() - 1) as nat, |i: int| strip_cr(q[i]));
    assert forall|i: int| 0 <= i < ls.len() implies strip_cr(ls[i]) == ls[i] by {
        assert(plain_line(ls[i]));
    }
    assert(ended =~= ls + ended_r) by {
        assert forall|i: int| 0 <= i < ended.len() implies ended[i] == (ls + ended_r)[i] by {
            if i < ls.len() {
                assert(p[i] == ls[i]);
                assert(strip_cr(ls[i]) == ls[i]);
            } else {
                assert(p[i] == q[i - ls.len()]);
            }
        }
    }
    assert(p.last() == q.last());
    if q.last().len() == 0 {
    } else {
        assert(ended.push(p.last()) =~= ls + ended_r.push(q.last()));
    }
}

/// Scanning the lines `b` from the state `st`.
pub open spec fn scan_from(st: (Seq<FileView>, Option<FileView>), b: Seq<Seq<char>>) -> Option<
    (Seq<FileView>, Option<FileView>),
>
    decreases b.len(),
{
    if b.len() == 0 {
        Some(st)
    } else {
        match scan_from(st, b.drop_last()) {
            None => None,
            Some((done, cur)) => scan_line(done, cur, trim_end_spec(b.last())),
        }
    }
}

proof fn lemma_scan_concat(a: Seq<Seq<char>>, b: Seq<Seq<char>>)
    requires
        section_scan(a) is Some,
    ensures
        section_scan(a + b) == scan_from(section_scan(a)->Some_0, b),
    decreases b.len(),
{
    if b.len() == 0 {
        assert(a + b =~= a);
    } else {
        lemma_scan_concat(a, b.drop_last());
        assert((a + b).drop_last() =~= a + b.drop_last());
        assert((a + b).last() == b.last());
    }
}

proof fn lemma_trim_plain(l: Seq<char>)
    requires
        l.len() > 0,
        !is_ws(l.last()),
    ensures
        trim_end_spec(l) == l,
{
}

/// A path that the section format can carry: non-empty, not the divider,
/// with no quote, and no white space but spaces and tabs.
pub open spec fn valid_path(p: Seq<char>) -> bool {
    &&& p.len() > 0
    &&& p != seq!['-', '-', '-']
    &&& forall|i: int|
        0 <= i < p.len() ==> (#[trigger] p[i]) != '"' && (is_ws(p[i]) ==> p[i] == ' ' || p[i] == '\t')
}

/// A hash that the section format can carry.
pub open spec fn valid_hash(h: Seq<char>) -> bool {
    free_of(h, ' ') && free_of(h, '\n')
}

/// Files that the section format carries exactly: valid paths and hashes,
/// at least one entry per file, and per entry at least one forward range,
/// ordered by first line.
pub open spec fn valid_files(files: Seq<FileView>) -> bool {
    forall|i: int|
        0 <= i < files.len() ==> {
            let f = #[trigger] files[i];
            &&& valid_path(f.0)
            &&& f.1.len() > 0
            &&& forall|j: int|
                0 <= j < f.1.len() ==> valid_hash((#[trigger] f.1[j]).0) && f.1[j].1.len() > 0
                    && sorted_by_start(f.1[j].1) && crate::line_range::all_wf(f.1[j].1)
        }
}

proof fn lemma_path_line(p: Seq<char>)
    requires
        valid_path(p),
    ensures
        plain_line(path_line(p)),
        path_line(p) != seq!['-', '-', '-'],
        path_line(p).len() > 0,
        path_line(p)[0] != ' ',
{
    let l = path_line(p);
    if quoted(p) {
        assert forall|i: int| 0 <= i < l.len() implies l[i] != '\n' by {
            if 0 < i < l.len() - 1 {
                assert(l[i] == p[i - 1]);
            }
        }
        assert(l[0] == '"');
    } else {
        assert forall|i: int| 0 <= i < l.len() implies l[i] != '\n' by {
            assert(is_ws(p[i]) ==> p[i] == ' ' || p[i] == '\t');
            if p[i] == '\n' {
                assert(quoted(p));
            }
        }
        assert(is_ws(p[p.len() - 1]) ==> p[p.len() - 1] == ' ' || p[p.len() - 1] == '\t');
        if p[p.len() - 1] == ' ' || p[p.len() - 1] == '\t' {
            assert(quoted(p));
        }
        if p[0] == ' ' {
            assert(quoted(p));
        }
    }
}

proof fn lemma_path_step(done: Seq<FileView>, cur: Option<FileView>, p: Seq<char>)
    requires
        valid_path(p),
    ensures
        scan_line(done, cur, trim_end_spec(path_line(p))) == Some(
            (close_file(done, cur), Some((p, Seq::<(Seq<char>, Seq<LineRange>)>::empty()))),
        ),
{
    lemma_path_line(p);
    let l = path_line(p);
    if quoted(p) {
        assert(l.last() == '"');
        lemma_trim_plain(l);
        assert(!starts_with(l, seq![' ', ' '])) by {
            if starts_with(l, seq![' ', ' ']) {
                assert(l.subrange(0, 2)[0] == l[0]);
            }
        }
        assert(l != seq!['"']) by {
            assert(l.len() >= 2);
        }
        assert(l.subrange(1, l.len() - 1) =~= p);
    } else {
        assert(!is_ws(p.last())) by {
            assert(is_ws(p[p.len() - 1]) ==> p[p.len() - 1] == ' ' || p[p.len() - 1] == '\t');
            if p[p.len() - 1] == ' ' || p[p.len() - 1] == '\t' {
                assert(quoted(p));
            }
        }
        lemma_trim_plain(l);
        assert(!starts_with(l, seq![' ', ' '])) by {
            if starts_with(l, seq![' ', ' ']) {
                assert(l.subrange(0, 2)[0] == l[0]);
            }
        }
        assert(l != seq!['"']) by {
            if l == seq!['"'] {
                assert(p[0] == '"');
            }
        }
        assert(l[0] != '"');
    }
}

proof fn lemma_entry_step(done: Seq<FileView>, f: FileView, h: Seq<char>, rs: Seq<LineRange>)
    requires
        valid_hash(h),
        crate::line_range::all_wf(rs),
        rs.len() > 0,
        sorted_by_start(rs),
    ensures
        scan_line(done, Some(f), trim_end_spec(entry_line(h, rs))) == Some(
            (done, Some((f.0, f.1.push((h, rs))))),
        ),
        plain_line(entry_line(h, rs)),
        entry_line(h, rs) != seq!['-', '-', '-'],
{
    lemma_stable_sort_sorted(rs);
    lemma_ranges_round_trip(rs);
    let j = join_ranges(rs);
    let l = entry_line(h, rs);
    assert(l == seq![' ', ' '] + h + seq![' '] + j);
    assert(l.last() == j.last());
    lemma_trim_plain(l);
    assert(l.subrange(0, 2) =~= seq![' ', ' ']);
    let body = l.subrange(2, l.len() as int);
    assert(body =~= h + seq![' '] + j);
    assert forall|q: int| 0 <= q < h.len() implies body[q] != ' ' by {
        assert(body[q] == h[q]);
    }
    lemma_first_index(body, ' ', h.len() as int);
    assert(body.subrange(0, h.len() as int) =~= h);
    assert(body.subrange(h.len() as int + 1, body.len() as int) =~= j);
    assert forall|q: int| 0 <= q < l.len() implies l[q] != '\n' by {
        if 2 <= q < 2 + h.len() {
            assert(l[q] == h[q - 2]);
        } else if q > 2 + h.len() {
            assert(l[q] == j[q - 3 - h.len()]);
        }
    }
    assert(l != seq!['-', '-', '-']) by {
        if l == seq!['-', '-', '-'] {
            assert(l[0] == ' ');
        }
    }
}

proof fn lemma_file_block(done: Seq<FileView>, cur: Option<FileView>, f: FileView, k: int)
    requires
        valid_path(f.0),
        0 <= k <= f.1.len(),
        forall|j: int|
            0 <= j < f.1.len() ==> valid_hash((#[trigger] f.1[j]).0) && f.1[j].1.len() > 0
                && sorted_by_start(f.1[j].1) && crate::line_range::all_wf(f.1[j].1),
    ensures
        scan_from(
            (done, cur),
            seq![path_line(f.0)] + Seq::new(k as nat, |j: int| entry_line(f.1[j].0, f.1[j].1)),
        ) == Some((close_file(done, cur), Some((f.0, f.1.subrange(0, k))))),
    decreases k,
{
    let b = seq![path_line(f.0)] + Seq::new(k as nat, |j: int| entry_line(f.1[j].0, f.1[j].1));
    if k == 0 {
        assert(b =~= seq![path_line(f.0)]);
        assert(b.drop_last() =~= Seq::<Seq<char>>::empty());
        assert(scan_from((done, cur), b.drop_last()) == Some((done, cur)));
        assert(b.last() == path_line(f.0));
        lemma_path_step(done, cur, f.0);
        assert(f.1.subrange(0, 0) =~= Seq::<(Seq<char>, Seq<LineRange>)>::empty());
    } else {
        lemma_file_block(done, cur, f, k - 1);
        let b0 = seq![path_line(f.0)] + Seq::new((k - 1) as nat, |j: int| entry_line(f.1[j].0, f.1[j].1));
        assert(b.drop_last() =~= b0);
        assert(b.last() == entry_line(f.1[k - 1].0, f.1[k - 1].1));
        assert(scan_from((done, cur), b.drop_last()) == Some((close_file(done, cur), Some((f.0, f.1.subrange(0, k - 1))))));
        lemma_entry_step(close_file(done, cur), (f.0, f.1.subrange(0, k - 1)), f.1[k - 1].0, f.1[k - 1].1);
        assert(f.1.subrange(0, k - 1).push((f.1[k - 1].0, f.1[k - 1].1)) =~= f.1.subrange(0, k));
    }
}

proof fn lemma_section_scan(files: Seq<FileView>)
    requires
        valid_files(files),
    ensures
        section_scan(section_lines(files)) == if files.len() == 0 {
            Some((Seq::<FileView>::empty(), None::<FileView>))
        } else {
            Some((files.drop_last(), Some(files.last())))
        },
    decreases files.len(),
{
    if files.len() > 0 {
        let t = files.drop_last();
        let f = files.last();
        assert(valid_files(t)) by {
            assert forall|i: int| 0 <= i < t.len() implies ({
                let g = #[trigger] t[i];
                &&& valid_path(g.0)
                &&& g.1.len() > 0
                &&& forall|j: int|
                    0 <= j < g.1.len() ==> valid_hash((#[trigger] g.1[j]).0) && g.1[j].1.len() > 0
                        && sorted_by_start(g.1[j].1) && crate::line_range::all_wf(g.1[j].1)
            }) by {
                assert(t[i] == files[i]);
            }
        }
        lemma_section_scan(t);
        let st = section_scan(section_lines(t))->Some_0;
        assert(files[files.len() - 1] == f);
        let fl = seq![path_line(f.0)] + Seq::new(f.1.len(), |j: int| entry_line(f.1[j].0, f.1[j].1));
        assert(section_lines(files) =~= section_lines(t) + fl);
        lemma_scan_concat(section_lines(t), fl);
        lemma_file_block(st.0, st.1, f, f.1.len() as int);
        assert(f.1.subrange(0, f.1.len() as int) =~= f.1);
        if t.len() > 0 {
            assert(t[t.len() - 1].1.len() > 0);
            assert(t.drop_last().push(t.last()) =~= t);
        } else {
            assert(close_file(Seq::<FileView>::empty(), None::<FileView>) =~= t);
        }
    }
}

proof fn lemma_section_plain(files: Seq<FileView>)
    requires
        valid_files(files),
    ensures
        forall|i: int| 0 <= i < section_lines(files).len() ==> plain_line(#[trigger] section_lines(files)[i])
            && !is_divider_line(section_lines(files)[i]),
    decreases files.len(),
{
    if files.len() > 0 {
        let t = files.drop_last();
        let f = files.last();
        assert(valid_files(t)) by {
            assert forall|i: int| 0 <= i < t.len() implies ({
                let g = #[trigger] t[i];
                &&& valid_path(g.0)
                &&& g.1.len() > 0
                &&& forall|j: int|
                    0 <= j < g.1.len() ==> valid_hash((#[trigger] g.1[j]).0) && g.1[j].1.len() > 0
                        && sorted_by_start(g.1[j].1) && crate::line_range::all_wf(g.1[j].1)
            }) by {
                assert(t[i] == files[i]);
            }
        }
        lemma_section_plain(t);
        assert(files[files.len() - 1] == f);
        let ls = section_lines(files);
        let lt = section_lines(t);
        lemma_path_line(f.0);
        assert forall|i: int| 0 <= i < ls.len() implies plain_line(#[trigger] ls[i]) && !is_divider_line(ls[i]) by {
            if i < lt.len() {
                assert(ls[i] == lt[i]);
            } else if i == lt.len() {
                assert(ls[i] == path_line(f.0));
            } else {
                let j = i - lt.len() - 1;
                assert(ls[i] == entry_line(f.1[j].0, f.1[j].1));
                lemma_entry_step(Seq::<FileView>::empty(), (f.0, f.1), f.1[j].0, f.1[j].1);
            }
        }
    }
}

/// Reading back a serialized attestation section, followed by any metadata
/// text, gives the same files, and the metadata text as `str::lines` splits
/// and a newline join rebuilds it.
pub proof fn law_round_trip(files: Seq<FileView>, metadata: Seq<char>)
    requires
        valid_files(files),
    ensures
        authorship_parts(section_text(files) + metadata) == Some(
            (files, join_nl(lines_spec(metadata))),
        ),
{
    let ls = section_lines(files);
    let all = ls.push(seq!['-', '-', '-']);
    lemma_section_plain(files);
    assert forall|i: int| 0 <= i < all.len() implies plain_line(#[trigger] all[i]) by {
        if i < ls.len() {
            assert(all[i] == ls[i]);
        }
    }
    lemma_lines_joined(all, metadata);
    let lines = all + lines_spec(metadata);
    assert(lines[ls.len() as int] == seq!['-', '-', '-']);
    let c = choose|d: int|
        0 <= d < lines.len() && #[trigger] is_divider_line(lines[d]) && forall|e: int|
            0 <= e < d ==> !#[trigger] is_divider_line(lines[e]);
    assert forall|e: int| 0 <= e < ls.len() implies !#[trigger] is_divider_line(lines[e]) by {
        assert(lines[e] == ls[e]);
    }
    assert(is_divider_line(lines[ls.len() as int]));
    if c < ls.len() {
        assert(lines[c] == ls[c]);
    }
    if c > ls.len() {
        assert(!is_divider_line(lines[ls.len() as int]));
    }
    assert(divider_at(lines) == Some(ls.len() as int));
    assert(lines.subrange(0, ls.len() as int) =~= ls);
    assert(lines.subrange(ls.len() as int + 1, lines.len() as int) =~= lines_spec(metadata));
    lemma_section_scan(files);
    if files.len() > 0 {
        assert(files[files.len() - 1].1.len() > 0);
        assert(files.drop_last().push(files.last()) =~= files);
    }
}


proof fn lemma_join_split(s: Seq<char>)
    ensures
        join_nl(split_on(s, '\n')) == s,
        free_of(s, '\r') ==> forall|i: int|
            0 <= i < split_on(s, '\n').len() ==> free_of(#[trigger] split_on(s, '\n')[i], '\r'),
    decreases s.len(),
{
    if s.len() == 0 {
        assert(join_nl(seq![Seq::<char>::empty()]) == Seq::<char>::empty());
    } else {
        let t = s.drop_last();
        let c = s.last();
        lemma_join_split(t);
        lemma_split_len(t, '\n');
        let p = split_on(t, '\n');
        if c == '\n' {
            let q = p.push(Seq::<char>::empty());
            assert(q.drop_last() =~= p);
            assert(join_nl(q) == join_nl(p) + seq!['\n'] + Seq::<char>::empty());
            assert(t.push(c) =~= s);
            assert(join_nl(q) =~= s);
        } else {
            let q = p.update(p.len() - 1, p.last().push(c));
            if p.len() == 1 {
                assert(join_nl(q) == q[0]);
                assert(join_nl(p) == p[0]);
                assert(q[0] =~= s);
            } else {
                assert(q.drop_last() =~= p.drop_last());
                assert(join_nl(q) == join_nl(p.drop_last()) + seq!['\n'] + p.last().push(c));
                assert(join_nl(p) == join_nl(p.drop_last()) + seq!['\n'] + p.last());
                assert(join_nl(p.drop_last()) + seq!['\n'] + p.last().push(c) =~= (join_nl(
                    p.drop_last(),
                ) + seq!['\n'] + p.last()).push(c));
                assert(t.push(c) =~= s);
                assert(join_nl(q) =~= s);
            }
        }
        if free_of(s, '\r') {
            assert(free_of(t, '\r')) by {
                assert forall|i: int| 0 <= i < t.len() implies t[i] != '\r' by {
                    assert(t[i] == s[i]);
                }
            }
            let q = split_on(s, '\n');
            assert forall|i: int| 0 <= i < q.len() implies free_of(#[trigger] q[i], '\r') by {
                if c != '\n' && i == q.len() - 1 {
                    assert(free_of(p[i], '\r'));
                    assert forall|k: int| 0 <= k < q[i].len() implies q[i][k] != '\r' by {
                        if k < p[i].len() {
                            assert(q[i][k] == p[i][k]);
                        }
                    }
                } else if i < p.len() {
                    assert(q[i] == p[i]);
                }
            }
        }
    }
}

/// Metadata text without carriage returns or a final newline comes back
/// unchanged from `str::lines` and a newline join.
pub proof fn lemma_metadata_text(m: Seq<char>)
    requires
        free_of(m, '\r'),
        m.len() == 0 || m.last() != '\n',
    ensures
        join_nl(lines_spec(m)) == m,
{
    lemma_split_nl_is_split_on(m);
    lemma_join_split(m);
    lemma_split_len(m, '\n');
    let p = split_on(m, '\n');
    let n = p.len() - 1;
    let ended = Seq::new(n as nat, |i: int| strip_cr(p[i]));
    assert forall|i: int| 0 <= i < n implies ended[i] == p[i] by {
        assert(free_of(p[i], '\r'));
        if p[i].len() > 0 {
            assert(p[i][p[i].len() - 1] != '\r');
        }
    }
    if m.len() == 0 {
        assert(p == seq![Seq::<char>::empty()]);
        assert(ended =~= Seq::<Seq<char>>::empty());
    } else {
        let t = m.drop_last();
        lemma_split_len(t, '\n');
        assert(p.last().len() > 0);
        assert(ended.push(p.last()) =~= p);
    }
}

/// A log's attestation section and metadata text read back exactly: the
/// files, and metadata text free of carriage returns and of a final newline.
pub proof fn law_round_trip_exact(files: Seq<FileView>, metadata: Seq<char>)
    requires
        valid_files(files),
        free_of(metadata, '\r'),
        metadata.len() == 0 || metadata.last() != '\n',
    ensures
        authorship_parts(section_text(files) + metadata) == Some((files, metadata)),
{
    law_round_trip(files, metadata);
    lemma_metadata_text(metadata);
}

} // verus!
