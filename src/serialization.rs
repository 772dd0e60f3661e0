use vstd::prelude::*;

use crate::authorship_log::{entries_view, files_view, AttestationEntry, AuthorshipLog, FileAttestation};
use crate::diff::{first_index, lemma_first_index};
use crate::error::GitAiError;
use crate::line_range::{sort_by_start, stable_sort, LineRange};
use crate::text::{
    chars_of, decimal, find_char, is_whitespace, is_ws, lines_spec, parse_u32, parse_u32_spec,
    push_decimal, push_str, slice_vec, split_lines, starts_with, string_of,
};

verus! {

/// A file as its path and its entries' hashes and ranges.
pub type FileView = (Seq<char>, Seq<(Seq<char>, Seq<LineRange>)>);

/// The text of one range: `n` or `start-end`.
pub open spec fn range_text(r: LineRange) -> Seq<char> {
    match r {
        LineRange::Single(n) => decimal(n as nat),
        LineRange::Range(a, b) => decimal(a as nat) + seq!['-'] + decimal(b as nat),
    }
}

/// The texts of the ranges, separated by commas.
pub open spec fn join_ranges(rs: Seq<LineRange>) -> Seq<char>
    decreases rs.len(),
{
    if rs.len() == 0 {
        Seq::empty()
    } else if rs.len() == 1 {
        range_text(rs[0])
    } else {
        join_ranges(rs.drop_last()) + seq![','] + range_text(rs.last())
    }
}

fn push_range(out: &mut Vec<char>, r: &LineRange)
    ensures
        final(out)@ == old(out)@ + range_text(*r),
{
    match r {
        LineRange::Single(n) => {
            push_decimal(out, *n);
        },
        LineRange::Range(a, b) => {
            push_decimal(out, *a);
            out.push('-');
            push_decimal(out, *b);
            assert(out@ =~= old(out)@ + range_text(*r));
        },
    }
}

fn push_ranges(out: &mut Vec<char>, ranges: &[LineRange])
    ensures
        final(out)@ == old(out)@ + join_ranges(stable_sort(ranges@)),
{
    let sorted = sort_by_start(ranges);
    let ghost start = out@;
    let mut i: usize = 0;
    while i < sorted.len()
        invariant
            0 <= i <= sorted@.len(),
            out@ == start + join_ranges(sorted@.subrange(0, i as int)),
        decreases sorted@.len() - i,
    {
        let ghost before = out@;
        if i > 0 {
            out.push(',');
        }
        push_range(out, &sorted[i]);
        proof {
            let t = sorted@.subrange(0, i + 1);
            assert(t.drop_last() =~= sorted@.subrange(0, i as int));
            if i == 0 {
                assert(sorted@.subrange(0, 0) =~= Seq::<LineRange>::empty());
                assert(out@ =~= start + join_ranges(t));
            } else {
                assert(out@ =~= start + join_ranges(t));
            }
        }
        i = i + 1;
    }
    assert(sorted@.subrange(0, sorted@.len() as int) =~= sorted@);
}

/// Formats ranges as `1,2,19-222`, ordered by first line.
pub fn format_line_ranges(ranges: &[LineRange]) -> (r: String)
    ensures
        r@ == join_ranges(stable_sort(ranges@)),
{
    let mut out: Vec<char> = Vec::new();
    push_ranges(&mut out, ranges);
    assert(out@ =~= join_ranges(stable_sort(ranges@)));
    string_of(&out)
}

/// The pieces of `s` between occurrences of `c`.
pub open spec fn split_on(s: Seq<char>, c: char) -> Seq<Seq<char>>
    decreases s.len(),
{
    if s.len() == 0 {
        seq![Seq::empty()]
    } else {
        let p = split_on(s.drop_last(), c);
        if s.last() == c {
            p.push(Seq::empty())
        } else {
            p.update(p.len() - 1, p.last().push(s.last()))
        }
    }
}

proof fn lemma_split_on_len(s: Seq<char>, c: char)
    ensures
        split_on(s, c).len() >= 1,
    decreases s.len(),
{
    if s.len() > 0 {
        lemma_split_on_len(s.drop_last(), c);
    }
}

/// One comma-separated piece: `n`, or `start-end` with `start <= end`.
#[verifier::opaque]
pub open spec fn parse_piece(p: Seq<char>) -> Option<LineRange> {
    match first_index(p, '-') {
        Some(k) => match (
            parse_u32_spec(p.subrange(0, k)),
            parse_u32_spec(p.subrange(k + 1, p.len() as int)),
        ) {
            (Some(a), Some(b)) => if a <= b {
                Some(LineRange::Range(a, b))
            } else {
                None
            },
            _ => None,
        },
        None => match parse_u32_spec(p) {
            Some(n) => Some(LineRange::Single(n)),
            None => None,
        },
    }
}

/// The ranges of the pieces, skipping empty ones; none if a piece is bad.
pub open spec fn parse_pieces(ps: Seq<Seq<char>>) -> Option<Seq<LineRange>>
    decreases ps.len(),
{
    if ps.len() == 0 {
        Some(Seq::empty())
    } else {
        match parse_pieces(ps.drop_last()) {
            None => None,
            Some(rs) => if ps.last().len() == 0 {
                Some(rs)
            } else {
                match parse_piece(ps.last()) {
                    Some(r) => Some(rs.push(r)),
                    None => None,
                }
            },
        }
    }
}

/// What `parse_line_ranges` reads from a text.
pub open spec fn ranges_of_text(s: Seq<char>) -> Option<Seq<LineRange>> {
    parse_pieces(split_on(s, ','))
}

fn read_piece(p: &[char]) -> (r: Option<LineRange>)
    ensures
        r == parse_piece(p@),
{
    proof {
        reveal(parse_piece);
    }
    match find_char(p, '-') {
        Some(k) => {
            proof {
                lemma_first_index(p@, '-', k as int);
            }
            let n = p.len();
            assert(k < n);
            let a = parse_u32(&slice_vec(p, 0, k));
            let b = parse_u32(&slice_vec(p, k + 1, n));
            match (a, b) {
                (Some(a), Some(b)) => if a <= b {
                    Some(LineRange::Range(a, b))
                } else {
                    None
                },
                _ => None,
            }
        },
        None => {
            assert(first_index(p@, '-') is None);
            match parse_u32(p) {
                Some(n) => Some(LineRange::Single(n)),
                None => None,
            }
        },
    }
}

fn parse_range_chars(s: &[char]) -> (r: Option<Vec<LineRange>>)
    ensures
        match r {
            Some(v) => ranges_of_text(s@) == Some(v@),
            None => ranges_of_text(s@) is None,
        },
{
    let mut out: Vec<LineRange> = Vec::new();
    let mut cur: Vec<char> = Vec::new();
    let mut i: usize = 0;
    while i < s.len()
        invariant
            0 <= i <= s@.len(),
            parse_pieces(split_on(s@.subrange(0, i as int), ',').drop_last()) == Some(out@),
            cur@ == split_on(s@.subrange(0, i as int), ',').last(),
        decreases s@.len() - i,
    {
        let c = s[i];
        let ghost p = split_on(s@.subrange(0, i as int), ',');
        proof {
            lemma_split_on_len(s@.subrange(0, i as int), ',');
        }
        assert(s@.subrange(0, i + 1).drop_last() =~= s@.subrange(0, i as int));
        if c == ',' {
            assert(p.push(Seq::<char>::empty()).drop_last() == p);
            assert(p.drop_last().push(p.last()) =~= p);
            if cur.len() > 0 {
                match read_piece(&cur) {
                    Some(r) => {
                        out.push(r);
                    },
                    None => {
                        proof {
                            lemma_pieces_fail(split_on(s@, ','), p, i as int, s@);
                        }
                        return None;
                    },
                }
            }
            cur = Vec::new();
            assert(cur@ =~= Seq::<char>::empty());
        } else {
            cur.push(c);
            let ghost p2 = p.update(p.len() - 1, p.last().push(c));
            assert(p2.drop_last() =~= p.drop_last());
        }
        i = i + 1;
    }
    assert(s@.subrange(0, s@.len() as int) =~= s@);
    proof {
        lemma_split_on_len(s@, ',');
        assert(split_on(s@, ',').drop_last().push(split_on(s@, ',').last()) =~= split_on(s@, ','));
    }
    if cur.len() > 0 {
        match read_piece(&cur) {
            Some(r) => {
                out.push(r);
            },
            None => {
                return None;
            },
        }
    }
    Some(out)
}

proof fn lemma_pieces_prefix_fails(ps: Seq<Seq<char>>, n: int)
    requires
        0 <= n <= ps.len(),
        parse_pieces(ps.subrange(0, n)) is None,
    ensures
        parse_pieces(ps) is None,
    decreases ps.len() - n,
{
    if n < ps.len() {
        assert(ps.subrange(0, n + 1).drop_last() =~= ps.subrange(0, n));
        lemma_pieces_prefix_fails(ps, n + 1);
    } else {
        assert(ps.subrange(0, n) =~= ps);
    }
}

proof fn lemma_split_on_prefix(s: Seq<char>, c: char, i: int)
    requires
        0 <= i < s.len(),
        s[i] == c,
    ensures
        split_on(s, c).len() >= split_on(s.subrange(0, i + 1), c).len(),
        split_on(s.subrange(0, i + 1), c).drop_last() == split_on(s, c).subrange(
            0,
            split_on(s.subrange(0, i + 1), c).len() - 1,
        ),
    decreases s.len() - i,
{
    lemma_split_on_len(s, c);
    lemma_split_on_len(s.subrange(0, i + 1), c);
    if i + 1 < s.len() {
        lemma_split_on_extend(s, c, i + 1);
    } else {
        assert(s.subrange(0, i + 1) =~= s);
    }
}

proof fn lemma_split_on_extend(s: Seq<char>, c: char, j: int)
    requires
        1 <= j <= s.len(),
        s[j - 1] == c,
    ensures
        split_on(s, c).len() >= split_on(s.subrange(0, j), c).len(),
        split_on(s.subrange(0, j), c).drop_last() == split_on(s, c).subrange(
            0,
            split_on(s.subrange(0, j), c).len() - 1,
        ),
    decreases s.len() - j,
{
    lemma_split_on_len(s.subrange(0, j), c);
    if j == s.len() {
        assert(s.subrange(0, j) =~= s);
    } else {
        let t = s.subrange(0, s.len() - 1);
        assert(t.subrange(0, j) =~= s.subrange(0, j));
        lemma_split_on_extend(t, c, j);
        assert(s.drop_last() =~= t);
        lemma_split_on_len(t, c);
        let pt = split_on(t, c);
        let m = split_on(s.subrange(0, j), c).len() - 1;
        if s.last() == c {
            assert(split_on(s, c) == pt.push(Seq::<char>::empty()));
            assert(pt.push(Seq::<char>::empty()).subrange(0, m) =~= pt.subrange(0, m));
        } else {
            assert(split_on(s, c) == pt.update(pt.len() - 1, pt.last().push(s.last())));
            assert(m <= pt.len() - 1);
            assert(pt.update(pt.len() - 1, pt.last().push(s.last())).subrange(0, m) =~= pt.subrange(0, m));
        }
    }
}

proof fn lemma_pieces_fail(all: Seq<Seq<char>>, p: Seq<Seq<char>>, i: int, s: Seq<char>)
    requires
        0 <= i < s.len(),
        s[i] == ',',
        p == split_on(s.subrange(0, i), ','),
        all == split_on(s, ','),
        p.last().len() > 0,
        parse_piece(p.last()) is None,
    ensures
        parse_pieces(all) is None,
{
    lemma_split_on_len(s.subrange(0, i), ',');
    let q = split_on(s.subrange(0, i + 1), ',');
    assert(s.subrange(0, i + 1).drop_last() =~= s.subrange(0, i));
    assert(q == p.push(Seq::<char>::empty()));
    lemma_split_on_prefix(s, ',', i);
    let n = p.len() as int;
    assert(all.subrange(0, n) == p) by {
        assert(q.drop_last() =~= p);
    }
    assert(p.drop_last().push(p.last()) =~= p);
    assert(parse_pieces(p) is None);
    lemma_pieces_prefix_fails(all, n);
}

/// Reads ranges written as `1,2,19-222`; empty pieces are skipped.
pub fn parse_line_ranges(input: &str) -> (r: Result<Vec<LineRange>, GitAiError>)
    ensures
        match r {
            Ok(v) => ranges_of_text(input@) == Some(v@),
            Err(_) => ranges_of_text(input@) is None,
        },
{
    let cs = chars_of(input);
    match parse_range_chars(&cs) {
        Some(v) => Ok(v),
        None => Err(GitAiError::BadFormat("invalid line range".to_string())),
    }
}

/// Whether a path has a space, tab or newline, and so is written quoted.
pub open spec fn quoted(path: Seq<char>) -> bool {
    exists|i: int| 0 <= i < path.len() && (path[i] == ' ' || path[i] == '\t' || path[i] == '\n')
}

pub fn needs_quoting(path: &str) -> (r: bool)
    ensures
        r == quoted(path@),
{
    let cs = chars_of(path);
    let mut i: usize = 0;
    while i < cs.len()
        invariant
            0 <= i <= cs@.len(),
            cs@ == path@,
            forall|k: int| 0 <= k < i ==> !(cs@[k] == ' ' || cs@[k] == '\t' || cs@[k] == '\n'),
        decreases cs@.len() - i,
    {
        if cs[i] == ' ' || cs[i] == '\t' || cs[i] == '\n' {
            return true;
        }
        i = i + 1;
    }
    false
}

/// The line naming a file.
pub open spec fn path_line(path: Seq<char>) -> Seq<char> {
    if quoted(path) {
        seq!['"'] + path + seq!['"']
    } else {
        path
    }
}

/// The line of one entry.
pub open spec fn entry_line(hash: Seq<char>, ranges: Seq<LineRange>) -> Seq<char> {
    seq![' ', ' '] + hash + seq![' '] + join_ranges(stable_sort(ranges))
}

/// The lines of the attestation section.
pub open spec fn section_lines(files: Seq<FileView>) -> Seq<Seq<char>>
    decreases files.len(),
{
    if files.len() == 0 {
        Seq::empty()
    } else {
        let f = files.last();
        section_lines(files.drop_last()) + seq![path_line(f.0)] + Seq::new(
            f.1.len(),
            |j: int| entry_line(f.1[j].0, f.1[j].1),
        )
    }
}

/// Lines joined, each followed by a newline.
pub open spec fn joined(lines: Seq<Seq<char>>) -> Seq<char>
    decreases lines.len(),
{
    if lines.len() == 0 {
        Seq::empty()
    } else {
        joined(lines.drop_last()) + lines.last() + seq!['\n']
    }
}

/// The text above the metadata: the attestation lines, then `---`.
pub open spec fn section_text(files: Seq<FileView>) -> Seq<char> {
    joined(section_lines(files).push(seq!['-', '-', '-']))
}

fn push_line(out: &mut Vec<char>, line: &Vec<char>)
    ensures
        final(out)@ == old(out)@ + line@ + seq!['\n'],
{
    let mut i: usize = 0;
    let ghost start = out@;
    while i < line.len()
        invariant
            0 <= i <= line@.len(),
            out@ == start + line@.subrange(0, i as int),
        decreases line@.len() - i,
    {
        out.push(line[i]);
        i = i + 1;
        assert(out@ =~= start + line@.subrange(0, i as int));
    }
    out.push('\n');
    assert(out@ =~= start + line@ + seq!['\n']);
}

impl AuthorshipLog {
    /// The attestation section and the divider line. The metadata JSON
    /// follows the divider.
    pub fn serialize_attestations(&self) -> (r: String)
        ensures
            r@ == section_text(files_view(self.attestations@)),
    {
        let ghost fv = files_view(self.attestations@);
        let mut out: Vec<char> = Vec::new();
        let mut i: usize = 0;
        while i < self.attestations.len()
            invariant
                0 <= i <= self.attestations@.len(),
                fv == files_view(self.attestations@),
                out@ == joined(section_lines(fv.subrange(0, i as int))),
            decreases self.attestations@.len() - i,
        {
            let file = &self.attestations[i];
            let ghost pre = fv.subrange(0, i as int);
            let ghost head = section_lines(pre);
            let path = chars_of(file.file_path.as_str());
            let mut line: Vec<char> = Vec::new();
            if needs_quoting(file.file_path.as_str()) {
                line.push('"');
                push_str(&mut line, file.file_path.as_str());
                line.push('"');
            } else {
                push_str(&mut line, file.file_path.as_str());
            }
            assert(line@ =~= path_line(file.file_path@));
            push_line(&mut out, &line);
            let ghost f = fv[i as int];
            proof {
                let l0 = head + seq![path_line(f.0)] + Seq::new(0 as nat, |q: int| entry_line(f.1[q].0, f.1[q].1));
                assert(l0 =~= head.push(path_line(f.0)));
                assert(l0.drop_last() =~= head);
            }
            assert(f.0 == file.file_path@);
            assert(f.1 == entries_view(file.entries@));
            let mut j: usize = 0;
            while j < file.entries.len()
                invariant
                    0 <= j <= file.entries@.len(),
                    f.1 == entries_view(file.entries@),
                    out@ == joined(
                        head + seq![path_line(f.0)] + Seq::new(j as nat, |q: int| entry_line(f.1[q].0, f.1[q].1)),
                    ),
                decreases file.entries@.len() - j,
            {
                let entry = &file.entries[j];
                let mut el: Vec<char> = Vec::new();
                el.push(' ');
                el.push(' ');
                push_str(&mut el, entry.hash.as_str());
                el.push(' ');
                push_ranges(&mut el, &entry.line_ranges);
                assert(f.1[j as int] == (entry.hash@, entry.line_ranges@));
                assert(el@ =~= entry_line(f.1[j as int].0, f.1[j as int].1));
                push_line(&mut out, &el);
                let ghost l1 = head + seq![path_line(f.0)] + Seq::new(j as nat, |q: int| entry_line(f.1[q].0, f.1[q].1));
                let ghost l2 = head + seq![path_line(f.0)] + Seq::new((j + 1) as nat, |q: int| entry_line(f.1[q].0, f.1[q].1));
                assert(l2.drop_last() =~= l1);
                assert(l2.last() == el@);
                j = j + 1;
            }
            proof {
                let l = head + seq![path_line(f.0)] + Seq::new(file.entries@.len() as nat, |q: int| entry_line(f.1[q].0, f.1[q].1));
                assert(fv.subrange(0, i + 1).drop_last() =~= pre);
                assert(fv.subrange(0, i + 1).last() == f);
                assert(section_lines(fv.subrange(0, i + 1)) =~= l);
                assert(head + seq![path_line(f.0)] =~= (head + seq![path_line(f.0)] + Seq::new(0 as nat, |q: int| entry_line(f.1[q].0, f.1[q].1))));
            }
            i = i + 1;
        }
        assert(fv.subrange(0, fv.len() as int) =~= fv);
        let mut divider: Vec<char> = Vec::new();
        divider.push('-');
        divider.push('-');
        divider.push('-');
        assert(divider@ =~= seq!['-', '-', '-']);
        let ghost body = out@;
        push_line(&mut out, &divider);
        proof {
            let all = section_lines(fv).push(seq!['-', '-', '-']);
            assert(all.drop_last() =~= section_lines(fv));
            assert(joined(all) == joined(section_lines(fv)) + seq!['-', '-', '-'] + seq!['\n']);
        }
        assert(out@ =~= section_text(fv));
        string_of(&out)
    }
}


/// `s` without trailing white space, as `str::trim_end` gives it.
pub open spec fn trim_end_spec(s: Seq<char>) -> Seq<char>
    decreases s.len(),
{
    if s.len() > 0 && is_ws(s.last()) {
        trim_end_spec(s.drop_last())
    } else {
        s
    }
}

fn trim_end_chars(s: &Vec<char>) -> (r: Vec<char>)
    ensures
        r@ == trim_end_spec(s@),
{
    let mut n: usize = s.len();
    assert(s@.subrange(0, n as int) =~= s@);
    while n > 0 && is_whitespace(s[n - 1])
        invariant
            n <= s@.len(),
            trim_end_spec(s@.subrange(0, n as int)) == trim_end_spec(s@),
        decreases n,
    {
        assert(s@.subrange(0, n as int).drop_last() =~= s@.subrange(0, n - 1));
        n = n - 1;
    }
    slice_vec(s, 0, n)
}

/// The file being read, moved to the finished ones if it has entries.
pub open spec fn close_file(done: Seq<FileView>, cur: Option<FileView>) -> Seq<FileView> {
    match cur {
        Some(f) => if f.1.len() > 0 {
            done.push(f)
        } else {
            done
        },
        None => done,
    }
}

/// One (trimmed) line of the attestation section read with the finished
/// files and the file being read; none when the line is ill-formed.
pub open spec fn scan_line(done: Seq<FileView>, cur: Option<FileView>, line: Seq<char>) -> Option<
    (Seq<FileView>, Option<FileView>),
> {
    if line.len() == 0 {
        Some((done, cur))
    } else if starts_with(line, seq![' ', ' ']) {
        let body = line.subrange(2, line.len() as int);
        match first_index(body, ' ') {
            None => None,
            Some(k) => match ranges_of_text(body.subrange(k + 1, body.len() as int)) {
                None => None,
                Some(rs) => match cur {
                    None => None,
                    Some(f) => Some((done, Some((f.0, f.1.push((body.subrange(0, k), rs)))))),
                },
            },
        }
    } else if line == seq!['"'] {
        None
    } else {
        let path = if line[0] == '"' && line.last() == '"' {
            line.subrange(1, line.len() - 1)
        } else {
            line
        };
        Some((close_file(done, cur), Some((path, Seq::empty()))))
    }
}

pub open spec fn section_scan(lines: Seq<Seq<char>>) -> Option<(Seq<FileView>, Option<FileView>)>
    decreases lines.len(),
{
    if lines.len() == 0 {
        Some((Seq::empty(), None))
    } else {
        match section_scan(lines.drop_last()) {
            None => None,
            Some((done, cur)) => scan_line(done, cur, trim_end_spec(lines.last())),
        }
    }
}

/// The files of an attestation section, or none when it is ill-formed.
pub open spec fn section_of(lines: Seq<Seq<char>>) -> Option<Seq<FileView>> {
    match section_scan(lines) {
        None => None,
        Some((done, cur)) => Some(close_file(done, cur)),
    }
}

proof fn lemma_scan_fails(all: Seq<Seq<char>>, n: int)
    requires
        0 <= n <= all.len(),
        section_scan(all.subrange(0, n)) is None,
    ensures
        section_of(all) is None,
    decreases all.len() - n,
{
    if n < all.len() {
        assert(all.subrange(0, n + 1).drop_last() =~= all.subrange(0, n));
        lemma_scan_fails(all, n + 1);
    } else {
        assert(all.subrange(0, n) =~= all);
    }
}

pub open spec fn line_views(lines: Seq<String>) -> Seq<Seq<char>> {
    lines.map_values(|l: String| l@)
}

pub open spec fn file_view(f: FileAttestation) -> FileView {
    (f.file_path@, entries_view(f.entries@))
}

pub open spec fn opt_file_view(f: Option<FileAttestation>) -> Option<FileView> {
    match f {
        Some(x) => Some(file_view(x)),
        None => None,
    }
}

fn parse_section_chars(lines: &Vec<Vec<char>>, from: usize, to: usize) -> (r: Option<Vec<FileAttestation>>)
    requires
        from <= to <= lines@.len(),
    ensures
        match r {
            Some(v) => section_of(lines@.subrange(from as int, to as int).map_values(|l: Vec<char>| l@))
                == Some(files_view(v@)),
            None => section_of(lines@.subrange(from as int, to as int).map_values(|l: Vec<char>| l@)) is None,
        },
{
    let ghost all = lines@.subrange(from as int, to as int).map_values(|l: Vec<char>| l@);
    let mut done: Vec<FileAttestation> = Vec::new();
    let mut cur: Option<FileAttestation> = None;
    let mut i: usize = from;
    while i < to
        invariant
            from <= i <= to,
            to <= lines@.len(),
            all == lines@.subrange(from as int, to as int).map_values(|l: Vec<char>| l@),
            section_scan(all.subrange(0, i - from)) == Some((files_view(done@), opt_file_view(cur))),
        decreases to - i,
    {
        let line = trim_end_chars(&lines[i]);
        let ghost pre = all.subrange(0, i - from);
        assert(all.subrange(0, i + 1 - from).drop_last() =~= pre);
        assert(all.subrange(0, i + 1 - from).last() == lines@[i as int]@);
        let ghost expected = scan_line(files_view(done@), opt_file_view(cur), line@);
        let n = line.len();
        if n == 0 {
        } else if n >= 2 && line[0] == ' ' && line[1] == ' ' {
            assert(starts_with(line@, seq![' ', ' '])) by {
                assert(line@.subrange(0, 2) =~= seq![' ', ' ']);
            }
            let body = slice_vec(&line, 2, n);
            match find_char(&body, ' ') {
                None => {
                    assert(first_index(body@, ' ') is None);
                    proof {
                        lemma_scan_fails(all, i + 1 - from);
                    }
                    return None;
                },
                Some(k) => {
                    proof {
                        lemma_first_index(body@, ' ', k as int);
                    }
                    let bn = body.len();
                    let hash = slice_vec(&body, 0, k);
                    let rest = slice_vec(&body, k + 1, bn);
                    match parse_range_chars(&rest) {
                        None => {
                            proof {
                                lemma_scan_fails(all, i + 1 - from);
                            }
                            return None;
                        },
                        Some(rs) => {
                            match cur {
                                None => {
                                    proof {
                                        lemma_scan_fails(all, i + 1 - from);
                                    }
                                    return None;
                                },
                                Some(f) => {
                                    let mut f = f;
                                    let ghost fe = entries_view(f.entries@);
                                    f.entries.push(AttestationEntry::new(string_of(&hash), rs));
                                    assert(entries_view(f.entries@) =~= fe.push((hash@, rs@)));
                                    cur = Some(f);
                                },
                            }
                        },
                    }
                },
            }
        } else if n == 1 && line[0] == '"' {
            assert(line@ =~= seq!['"']);
            proof {
                lemma_scan_fails(all, i + 1 - from);
            }
            return None;
        } else {
            proof {
                if n >= 2 && line@[0] == ' ' && line@[1] == ' ' {
                } else if n >= 2 {
                    assert(!starts_with(line@, seq![' ', ' '])) by {
                        if starts_with(line@, seq![' ', ' ']) {
                            assert(line@.subrange(0, 2)[0] == line@[0]);
                            assert(line@.subrange(0, 2)[1] == line@[1]);
                        }
                    }
                }
                if n == 1 {
                    assert(line@ != seq!['"']) by {
                        if line@ == seq!['"'] {
                            assert(line@[0] == '"');
                        }
                    }
                }
            }
            let path = if line[0] == '"' && line[n - 1] == '"' {
                slice_vec(&line, 1, n - 1)
            } else {
                slice_vec(&line, 0, n)
            };
            assert(line@.subrange(0, n as int) =~= line@);
            let ghost closed = close_file(files_view(done@), opt_file_view(cur));
            match cur {
                Some(f) => {
                    if f.entries.len() > 0 {
                        let ghost before = done@;
                        done.push(f);
                        assert(files_view(done@) =~= files_view(before).push(file_view(f)));
                    }
                },
                None => {},
            }
            assert(files_view(done@) == closed);
            cur = Some(FileAttestation::new(string_of(&path)));
            assert(entries_view(Seq::<AttestationEntry>::empty()) =~= Seq::<(Seq<char>, Seq<LineRange>)>::empty());
        }
        i = i + 1;
    }
    assert(all.subrange(0, to - from) =~= all);
    match cur {
        Some(f) => {
            if f.entries.len() > 0 {
                let ghost before = done@;
                done.push(f);
                assert(files_view(done@) =~= files_view(before).push(file_view(f)));
            }
        },
        None => {},
    }
    Some(done)
}

/// Reads the attestation section (the lines above the divider).
pub fn parse_attestation_section(lines: &[String]) -> (r: Result<Vec<FileAttestation>, GitAiError>)
    ensures
        match r {
            Ok(v) => section_of(line_views(lines@)) == Some(files_view(v@)),
            Err(_) => section_of(line_views(lines@)) is None,
        },
{
    let mut cs: Vec<Vec<char>> = Vec::new();
    let mut i: usize = 0;
    while i < lines.len()
        invariant
            0 <= i <= lines@.len(),
            cs@.len() == i,
            forall|q: int| 0 <= q < i ==> (#[trigger] cs@[q])@ == lines@[q]@,
        decreases lines@.len() - i,
    {
        let v = chars_of(lines[i].as_str());
        assert(v@ == lines@[i as int]@);
        cs.push(v);
        i = i + 1;
    }
    assert(cs@.map_values(|l: Vec<char>| l@) =~= line_views(lines@));
    let n = cs.len();
    assert(cs@.subrange(0, n as int) =~= cs@);
    match parse_section_chars(&cs, 0, n) {
        Some(v) => Ok(v),
        None => Err(GitAiError::BadFormat("invalid attestation section".to_string())),
    }
}

/// Lines joined with newlines between them.
pub open spec fn join_nl(ls: Seq<Seq<char>>) -> Seq<char>
    decreases ls.len(),
{
    if ls.len() == 0 {
        Seq::empty()
    } else if ls.len() == 1 {
        ls[0]
    } else {
        join_nl(ls.drop_last()) + seq!['\n'] + ls.last()
    }
}

/// Whether a line is the divider `---`.
pub open spec fn is_divider_line(l: Seq<char>) -> bool {
    l == seq!['-', '-', '-']
}

/// Position of the first divider line.
pub open spec fn divider_at(ls: Seq<Seq<char>>) -> Option<int> {
    if exists|d: int| 0 <= d < ls.len() && #[trigger] is_divider_line(ls[d]) {
        Some(
            choose|d: int|
                0 <= d < ls.len() && #[trigger] is_divider_line(ls[d]) && forall|e: int|
                    0 <= e < d ==> !#[trigger] is_divider_line(ls[e]),
        )
    } else {
        None
    }
}

/// What `split_authorship_text` reads: the files above the divider and the
/// metadata text below it.
pub open spec fn authorship_parts(content: Seq<char>) -> Option<(Seq<FileView>, Seq<char>)> {
    let ls = lines_spec(content);
    match divider_at(ls) {
        None => None,
        Some(d) => match section_of(ls.subrange(0, d)) {
            None => None,
            Some(files) => Some((files, join_nl(ls.subrange(d + 1, ls.len() as int)))),
        },
    }
}

fn is_divider(l: &Vec<char>) -> (r: bool)
    ensures
        r == is_divider_line(l@),
{
    if l.len() == 3 && l[0] == '-' && l[1] == '-' && l[2] == '-' {
        assert(l@ =~= seq!['-', '-', '-']);
        true
    } else {
        assert(l@ != seq!['-', '-', '-']) by {
            if l@ == seq!['-', '-', '-'] {
                assert(l@[0] == '-' && l@[1] == '-' && l@[2] == '-');
            }
        }
        false
    }
}

fn find_divider(lines: &Vec<Vec<char>>) -> (r: Option<usize>)
    ensures
        match r {
            Some(d) => d < lines@.len() && divider_at(lines@.map_values(|l: Vec<char>| l@)) == Some(d as int),
            None => divider_at(lines@.map_values(|l: Vec<char>| l@)) is None,
        },
{
    let ghost ls = lines@.map_values(|l: Vec<char>| l@);
    let mut d: usize = 0;
    while d < lines.len()
        invariant
            0 <= d <= lines@.len(),
            ls == lines@.map_values(|l: Vec<char>| l@),
            forall|e: int| 0 <= e < d ==> !#[trigger] is_divider_line(ls[e]),
        decreases lines@.len() - d,
    {
        if is_divider(&lines[d]) {
            assert(ls[d as int] == lines@[d as int]@);
            proof {
                let c = choose|c: int|
                    0 <= c < ls.len() && #[trigger] is_divider_line(ls[c]) && forall|e: int|
                        0 <= e < c ==> !#[trigger] is_divider_line(ls[e]);
                if c > d {
                    assert(!is_divider_line(ls[d as int]));
                }
            }
            return Some(d);
        }
        assert(ls[d as int] == lines@[d as int]@);
        d = d + 1;
    }
    None
}

/// The lines from `start` on, joined with newlines.
fn join_from(lines: &Vec<Vec<char>>, start: usize) -> (r: Vec<char>)
    requires
        start <= lines@.len(),
    ensures
        r@ == join_nl(lines@.map_values(|l: Vec<char>| l@).subrange(start as int, lines@.len() as int)),
{
    let ghost tail = lines@.map_values(|l: Vec<char>| l@).subrange(start as int, lines@.len() as int);
    let mut json: Vec<char> = Vec::new();
    let mut k: usize = start;
    while k < lines.len()
        invariant
            start <= k <= lines@.len(),
            tail == lines@.map_values(|l: Vec<char>| l@).subrange(start as int, lines@.len() as int),
            json@ == join_nl(tail.subrange(0, k - start)),
        decreases lines@.len() - k,
    {
        if k > start {
            json.push('\n');
        }
        let l = &lines[k];
        let mut q: usize = 0;
        let ghost mid = json@;
        while q < l.len()
            invariant
                0 <= q <= l@.len(),
                json@ == mid + l@.subrange(0, q as int),
            decreases l@.len() - q,
        {
            json.push(l[q]);
            q = q + 1;
            assert(json@ =~= mid + l@.subrange(0, q as int));
        }
        proof {
            let t = tail.subrange(0, k + 1 - start);
            assert(t.drop_last() =~= tail.subrange(0, k - start));
            assert(t.last() == l@);
            assert(l@.subrange(0, l@.len() as int) =~= l@);
            assert(json@ =~= join_nl(t));
        }
        k = k + 1;
    }
    assert(tail.subrange(0, lines@.len() - start) =~= tail);
    json
}

/// Splits an authorship log text at its `---` divider: the attestation
/// files above it, and the metadata JSON text below it.
pub fn split_authorship_text(content: &str) -> (r: Result<(Vec<FileAttestation>, String), GitAiError>)
    ensures
        match r {
            Ok((files, json)) => authorship_parts(content@) == Some((files_view(files@), json@)),
            Err(_) => authorship_parts(content@) is None,
        },
{
    let cs = chars_of(content);
    let lines = split_lines(&cs);
    let ghost ls = lines_spec(content@);
    assert(lines@.map_values(|l: Vec<char>| l@) =~= ls);
    let d = match find_divider(&lines) {
        Some(d) => d,
        None => {
            return Err(GitAiError::BadFormat("Missing divider '---' in authorship log".to_string()));
        },
    };
    assert(lines@.subrange(0, d as int).map_values(|l: Vec<char>| l@) =~= ls.subrange(0, d as int));
    let files = match parse_section_chars(&lines, 0, d) {
        Some(v) => v,
        None => {
            return Err(GitAiError::BadFormat("invalid attestation section".to_string()));
        },
    };
    let json = join_from(&lines, d + 1);
    Ok((files, string_of(&json)))
}

} // verus!
