use vstd::prelude::*;

use crate::authorship_log::{attribution_of, AuthorshipLog, PromptRecord};
use crate::error::GitAiError;
use crate::str_map::StrMap;
use crate::text::{
    chars_of, find_char, has_prefix, is_whitespace, is_ws, lines_spec, parse_u32, parse_u32_spec,
    push_str, slice_vec, split_lines, starts_with, string_of,
};

verus! {

/// What to diff: one commit against its parent, or two commits.
#[derive(Debug, Clone, PartialEq, Eq)]
pub enum DiffSpec {
    SingleCommit(String),
    TwoCommit(String, String),
}

/// One hunk of a zero-context diff, with the line numbers it touches.
#[derive(Debug, Clone, PartialEq, Eq)]
pub struct DiffHunk {
    pub file_path: String,
    pub old_start: u32,
    pub old_count: u32,
    pub new_start: u32,
    pub new_count: u32,
    /// Line numbers in the old file.
    pub deleted_lines: Vec<u32>,
    /// Line numbers in the new file.
    pub added_lines: Vec<u32>,
}

/// A line of a diff: its file, its number and its side.
#[derive(Debug, Clone, PartialEq, Eq, Hash)]
pub struct DiffLineKey {
    pub file: String,
    pub line: u32,
    pub side: LineSide,
}

#[derive(Debug, Clone, Copy, PartialEq, Eq, Hash, Structural)]
pub enum LineSide {
    /// A deleted line.
    Old,
    /// An added line.
    New,
}

/// Who wrote a diff line.
#[derive(Debug, Clone, PartialEq, Eq)]
pub enum Attribution {
    /// An AI tool, by name.
    Ai(String),
    /// A person, by user name.
    Human(String),
    /// No authorship data.
    NoData,
}

/// Whether `".."` starts at `k`.
pub open spec fn dots_at(s: Seq<char>, k: int) -> bool {
    0 <= k < s.len() - 1 && s[k] == '.' && s[k + 1] == '.'
}

/// Index of the first `".."` in `s`, if any.
#[verifier::opaque]
pub open spec fn first_dots(s: Seq<char>) -> Option<int> {
    if exists|k: int| #[trigger] dots_at(s, k) {
        Some(
            choose|k: int|
                #[trigger] dots_at(s, k) && forall|j: int| 0 <= j < k ==> !#[trigger] dots_at(s, j),
        )
    } else {
        None
    }
}

/// What `parse_diff_args` returns for the first argument `a`: a range
/// `start..end` splits into two commits when both sides are non-empty and
/// no second `..` follows; any other text with `..` is an error.
pub open spec fn diff_spec_of(a: Seq<char>) -> Option<(Seq<char>, Option<Seq<char>>)> {
    match first_dots(a) {
        None => Some((a, None)),
        Some(k) => {
            let left = a.subrange(0, k);
            let right = a.subrange(k + 2, a.len() as int);
            if k > 0 && right.len() > 0 && first_dots(right) is None {
                Some((left, Some(right)))
            } else {
                None
            }
        },
    }
}

proof fn lemma_first_dots(s: Seq<char>, k: int)
    requires
        dots_at(s, k),
        forall|j: int| 0 <= j < k ==> !#[trigger] dots_at(s, j),
    ensures
        first_dots(s) == Some(k),
{
    reveal(first_dots);
    let c = choose|c: int|
        #[trigger] dots_at(s, c) && forall|j: int| 0 <= j < c ==> !#[trigger] dots_at(s, j);
    if c < k {
        assert(!dots_at(s, c));
    }
    if k < c {
        assert(!dots_at(s, k));
    }
}

/// Position of the first `".."`, if any.
fn find_dots(s: &[char]) -> (r: Option<usize>)
    ensures
        r matches Some(k) ==> first_dots(s@) == Some(k as int) && dots_at(s@, k as int),
        r is None ==> first_dots(s@) is None,
{
    let mut i: usize = 0;
    while s.len() > 1 && i < s.len() - 1
        invariant
            0 <= i <= s@.len(),
            forall|j: int| 0 <= j < i ==> !#[trigger] dots_at(s@, j),
        decreases s@.len() - i,
    {
        if s[i] == '.' && s[i + 1] == '.' {
            proof {
                lemma_first_dots(s@, i as int);
            }
            return Some(i);
        }
        i = i + 1;
    }
    assert forall|j: int| !#[trigger] dots_at(s@, j) by {
        if dots_at(s@, j) {
            assert(j < i);
        }
    }
    proof {
        reveal(first_dots);
    }
    None
}

/// Reads the commit argument: `<commit>` or `<commit>..<commit>`.
pub fn parse_diff_args(args: &[String]) -> (r: Result<DiffSpec, GitAiError>)
    requires
        args@.len() >= 1,
    ensures
        match r {
            Ok(DiffSpec::SingleCommit(c)) => diff_spec_of(args@[0]@) == Some((c@, None::<Seq<char>>)),
            Ok(DiffSpec::TwoCommit(a, b)) => diff_spec_of(args@[0]@) == Some((a@, Some(b@))),
            Err(_) => diff_spec_of(args@[0]@) is None,
        },
{
    let arg = chars_of(args[0].as_str());
    match find_dots(&arg) {
        None => Ok(DiffSpec::SingleCommit(string_of(&arg))),
        Some(k) => {
            assert(dots_at(arg@, k as int));
            let n = arg.len();
            assert(k + 2 <= n);
            let left = slice_vec(&arg, 0, k);
            let right = slice_vec(&arg, k + 2, n);
            let again = find_dots(&right);
            assert(diff_spec_of(arg@) == if k > 0 && right@.len() > 0 && first_dots(right@) is None {
                Some((left@, Some(right@)))
            } else {
                None
            });
            if k > 0 && right.len() > 0 && again.is_none() {
                Ok(DiffSpec::TwoCommit(string_of(&left), string_of(&right)))
            } else {
                Err(
                    GitAiError::Generic(
                        "Invalid commit range format. Expected: <commit>..<commit>".to_string(),
                    ),
                )
            }
        },
    }
}

/// The words of `s` and the unfinished last word, as `split_whitespace` scans.
pub open spec fn ws_scan(s: Seq<char>) -> (Seq<Seq<char>>, Seq<char>)
    decreases s.len(),
{
    if s.len() == 0 {
        (Seq::empty(), Seq::empty())
    } else {
        let (w, cur) = ws_scan(s.drop_last());
        if is_ws(s.last()) {
            if cur.len() > 0 {
                (w.push(cur), Seq::empty())
            } else {
                (w, cur)
            }
        } else {
            (w, cur.push(s.last()))
        }
    }
}

/// The words of `s`, as `str::split_whitespace` yields them.
pub open spec fn words(s: Seq<char>) -> Seq<Seq<char>> {
    let (w, cur) = ws_scan(s);
    if cur.len() > 0 {
        w.push(cur)
    } else {
        w
    }
}

fn split_words(s: &[char]) -> (r: Vec<Vec<char>>)
    ensures
        r@.len() == words(s@).len(),
        forall|i: int| 0 <= i < r@.len() ==> (#[trigger] r@[i])@ == words(s@)[i],
{
    let mut out: Vec<Vec<char>> = Vec::new();
    let mut cur: Vec<char> = Vec::new();
    let mut i: usize = 0;
    while i < s.len()
        invariant
            0 <= i <= s@.len(),
            out@.len() == ws_scan(s@.subrange(0, i as int)).0.len(),
            forall|q: int|
                0 <= q < out@.len() ==> (#[trigger] out@[q])@ == ws_scan(
                    s@.subrange(0, i as int),
                ).0[q],
            cur@ == ws_scan(s@.subrange(0, i as int)).1,
        decreases s@.len() - i,
    {
        let c = s[i];
        assert(s@.subrange(0, i + 1).drop_last() =~= s@.subrange(0, i as int));
        if is_whitespace(c) {
            if cur.len() > 0 {
                out.push(cur);
                cur = Vec::new();
                assert(cur@ =~= Seq::<char>::empty());
            }
        } else {
            cur.push(c);
        }
        i = i + 1;
    }
    assert(s@.subrange(0, s@.len() as int) =~= s@);
    if cur.len() > 0 {
        out.push(cur);
    }
    out
}

/// The value `parse().unwrap_or(0)` gives.
pub open spec fn number_or_zero(s: Seq<char>) -> u32 {
    match parse_u32_spec(s) {
        Some(n) => n,
        None => 0,
    }
}

/// Index of the first `c` in `s`, if any.
pub open spec fn first_index(s: Seq<char>, c: char) -> Option<int> {
    if exists|k: int| 0 <= k < s.len() && s[k] == c {
        Some(choose|k: int| 0 <= k < s.len() && s[k] == c && forall|j: int| 0 <= j < k ==> s[j] != c)
    } else {
        None
    }
}

pub proof fn lemma_first_index(s: Seq<char>, c: char, k: int)
    requires
        0 <= k < s.len(),
        s[k] == c,
        forall|j: int| 0 <= j < k ==> s[j] != c,
    ensures
        first_index(s, c) == Some(k),
{
    let q = choose|q: int| 0 <= q < s.len() && s[q] == c && forall|j: int| 0 <= j < q ==> s[j] != c;
    if q < k {
        assert(s[q] != c);
    }
    if k < q {
        assert(s[k] != c);
    }
}

/// Start and count of one side of a hunk header (`-10,3` or `+15`).
pub open spec fn side_numbers(part: Seq<char>, sign: char) -> (u32, u32) {
    if part.len() > 0 && part[0] == sign {
        let rest = part.drop_first();
        match first_index(rest, ',') {
            Some(k) => (
                number_or_zero(rest.subrange(0, k)),
                number_or_zero(rest.subrange(k + 1, rest.len() as int)),
            ),
            None => (number_or_zero(rest), 1),
        }
    } else {
        (0, 0)
    }
}

fn read_side(part: &[char], sign: char) -> (r: (u32, u32))
    ensures
        r == side_numbers(part@, sign),
{
    if part.len() > 0 && part[0] == sign {
        let rest = slice_vec(part, 1, part.len());
        assert(rest@ =~= part@.drop_first());
        match find_char(&rest, ',') {
            Some(k) => {
                proof {
                    lemma_first_index(rest@, ',', k as int);
                }
                let start = parse_u32(&slice_vec(&rest, 0, k));
                let count = parse_u32(&slice_vec(&rest, k + 1, rest.len()));
                (
                    match start {
                        Some(n) => n,
                        None => 0,
                    },
                    match count {
                        Some(n) => n,
                        None => 0,
                    },
                )
            },
            None => {
                let start = parse_u32(&rest);
                (
                    match start {
                        Some(n) => n,
                        None => 0,
                    },
                    1,
                )
            },
        }
    } else {
        (0, 0)
    }
}

/// The numbers of a hunk header line: `(old_start, old_count, new_start,
/// new_count)`, or none when the line has fewer than three words.
pub open spec fn hunk_numbers(line: Seq<char>) -> Option<(u32, u32, u32, u32)> {
    let parts = words(line);
    if parts.len() < 3 {
        None
    } else {
        let (os, oc) = side_numbers(parts[1], '-');
        let (ns, nc) = side_numbers(parts[2], '+');
        Some((os, oc, ns, nc))
    }
}

/// The `count` line numbers from `start`, stopping at the largest `u32`.
pub open spec fn numbered(start: u32, count: u32) -> Seq<u32> {
    let n = if start + count - 1 > u32::MAX {
        u32::MAX - start + 1
    } else {
        count as int
    };
    Seq::new(n as nat, |k: int| (start + k) as u32)
}

fn number_run(start: u32, count: u32) -> (r: Vec<u32>)
    ensures
        r@ == numbered(start, count),
{
    let mut out: Vec<u32> = Vec::new();
    let mut k: u64 = 0;
    while k < count as u64 && start as u64 + k <= u32::MAX as u64
        invariant
            k <= count,
            start + k <= u32::MAX + 1,
            out@ == Seq::new(k as nat, |q: int| (start + q) as u32),
        decreases count - k,
    {
        out.push((start as u64 + k) as u32);
        k = k + 1;
        assert(out@ =~= Seq::new(k as nat, |q: int| (start + q) as u32));
    }
    assert(out@ =~= numbered(start, count));
    out
}

impl DiffHunk {
    /// The header numbers of the hunk.
    pub open spec fn numbers(&self) -> (u32, u32, u32, u32) {
        (self.old_start, self.old_count, self.new_start, self.new_count)
    }

    /// The touched lines follow from the header numbers.
    pub open spec fn consistent(&self) -> bool {
        &&& self.deleted_lines@ == numbered(self.old_start, self.old_count)
        &&& self.added_lines@ == numbered(self.new_start, self.new_count)
    }
}

/// Reads a hunk header `@@ -a,b +c,d @@ ...` of `file_path`. Missing
/// counts are 1; unreadable numbers are 0; a line of fewer than three
/// words is no hunk.
pub fn parse_hunk_line(line: &str, file_path: &str) -> (r: Result<Option<DiffHunk>, GitAiError>)
    ensures
        match r {
            Ok(Some(h)) => hunk_numbers(line@) == Some(h.numbers()) && h.consistent()
                && h.file_path@ == file_path@,
            Ok(None) => hunk_numbers(line@) is None,
            Err(_) => false,
        },
{
    let cs = chars_of(line);
    let parts = split_words(&cs);
    if parts.len() < 3 {
        return Ok(None);
    }
    let (old_start, old_count) = read_side(&parts[1], '-');
    let (new_start, new_count) = read_side(&parts[2], '+');
    let deleted_lines = if old_count > 0 {
        number_run(old_start, old_count)
    } else {
        Vec::new()
    };
    let added_lines = if new_count > 0 {
        number_run(new_start, new_count)
    } else {
        Vec::new()
    };
    assert(old_count == 0 ==> deleted_lines@ =~= numbered(old_start, old_count));
    assert(new_count == 0 ==> added_lines@ =~= numbered(new_start, new_count));
    Ok(
        Some(
            DiffHunk {
                file_path: file_path.to_string(),
                old_start,
                old_count,
                new_start,
                new_count,
                deleted_lines,
                added_lines,
            },
        ),
    )
}

/// The start of one side of a hunk header, when it reads as a number.
pub open spec fn side_start(part: Seq<char>, sign: char) -> Option<u32> {
    if part.len() > 0 && part[0] == sign {
        let rest = part.drop_first();
        match first_index(rest, ',') {
            Some(k) => parse_u32_spec(rest.subrange(0, k)),
            None => parse_u32_spec(rest),
        }
    } else {
        None
    }
}

fn read_start(part: &[char], sign: char) -> (r: Option<u32>)
    ensures
        r == side_start(part@, sign),
{
    if part.len() > 0 && part[0] == sign {
        let rest = slice_vec(part, 1, part.len());
        assert(rest@ =~= part@.drop_first());
        match find_char(&rest, ',') {
            Some(k) => {
                proof {
                    lemma_first_index(rest@, ',', k as int);
                }
                parse_u32(&slice_vec(&rest, 0, k))
            },
            None => parse_u32(&rest),
        }
    } else {
        None
    }
}

/// The old and new start lines of a hunk header.
pub fn parse_hunk_header_for_line_nums(line: &str) -> (r: Option<(u32, u32)>)
    ensures
        r == if words(line@).len() < 3 {
            None
        } else {
            match (side_start(words(line@)[1], '-'), side_start(words(line@)[2], '+')) {
                (Some(a), Some(b)) => Some((a, b)),
                _ => None,
            }
        },
{
    let cs = chars_of(line);
    let parts = split_words(&cs);
    if parts.len() < 3 {
        return None;
    }
    let old_start = read_start(&parts[1], '-');
    let new_start = read_start(&parts[2], '+');
    match (old_start, new_start) {
        (Some(a), Some(b)) => Some((a, b)),
        _ => None,
    }
}

/// The hunk headers of a diff text, each with the file of the latest
/// `+++ b/` line before it (empty before the first).
pub open spec fn scan_hunks(lines: Seq<Seq<char>>) -> (Seq<(Seq<char>, (u32, u32, u32, u32))>, Seq<
    char,
>)
    decreases lines.len(),
{
    if lines.len() == 0 {
        (Seq::empty(), Seq::empty())
    } else {
        let (hs, file) = scan_hunks(lines.drop_last());
        let l = lines.last();
        if starts_with(l, "+++ b/"@) {
            (hs, l.subrange(6, l.len() as int))
        } else if starts_with(l, "@@ "@) {
            match hunk_numbers(l) {
                Some(n) => (hs.push((file, n)), file),
                None => (hs, file),
            }
        } else {
            (hs, file)
        }
    }
}

/// Every hunk of a `git diff -U0` text, in order.
pub fn parse_diff_hunks(diff_text: &str) -> (r: Result<Vec<DiffHunk>, GitAiError>)
    ensures
        match r {
            Ok(hunks) => {
                let expected = scan_hunks(lines_spec(diff_text@)).0;
                &&& hunks@.len() == expected.len()
                &&& forall|i: int|
                    0 <= i < hunks@.len() ==> (#[trigger] hunks@[i]).file_path@ == expected[i].0
                        && hunks@[i].numbers() == expected[i].1 && hunks@[i].consistent()
            },
            Err(_) => false,
        },
{
    let text = chars_of(diff_text);
    let lines = split_lines(&text);
    let ghost ls = lines_spec(diff_text@);
    let mut hunks: Vec<DiffHunk> = Vec::new();
    let mut current_file: Vec<char> = Vec::new();
    let mut i: usize = 0;
    while i < lines.len()
        invariant
            0 <= i <= lines@.len(),
            lines@.len() == ls.len(),
            forall|q: int| 0 <= q < lines@.len() ==> (#[trigger] lines@[q])@ == ls[q],
            current_file@ == scan_hunks(ls.subrange(0, i as int)).1,
            hunks@.len() == scan_hunks(ls.subrange(0, i as int)).0.len(),
            forall|q: int|
                0 <= q < hunks@.len() ==> (#[trigger] hunks@[q]).file_path@ == scan_hunks(
                    ls.subrange(0, i as int),
                ).0[q].0 && hunks@[q].numbers() == scan_hunks(ls.subrange(0, i as int)).0[q].1
                    && hunks@[q].consistent(),
        decreases lines@.len() - i,
    {
        proof {
            reveal_strlit("+++ b/");
            reveal_strlit("@@ ");
        }
        let line = &lines[i];
        assert(ls.subrange(0, i + 1).drop_last() =~= ls.subrange(0, i as int));
        assert(ls.subrange(0, i + 1).last() == line@);
        if has_prefix(line, "+++ b/") {
            current_file = slice_vec(line, 6, line.len());
        } else if has_prefix(line, "@@ ") {
            let line_text = string_of(line);
            let file_text = string_of(&current_file);
            match parse_hunk_line(line_text.as_str(), file_text.as_str()) {
                Ok(Some(h)) => {
                    hunks.push(h);
                },
                _ => {},
            }
        }
        i = i + 1;
    }
    assert(ls.subrange(0, ls.len() as int) =~= ls);
    Ok(hunks)
}

/// The annotation of one line according to an optional authorship log.
pub open spec fn annotated(
    log: Option<AuthorshipLog>,
    file: Seq<char>,
    line: int,
    cache: Seq<(Seq<char>, Option<PromptRecord>)>,
) -> Attribution {
    match log {
        None => Attribution::NoData,
        Some(l) => match attribution_of(l, file, line, cache) {
            Some((_, rec)) => Attribution::Ai(rec.agent_id.tool),
            None => Attribution::NoData,
        },
    }
}

pub open spec fn loaded(log: Option<&AuthorshipLog>) -> Option<AuthorshipLog> {
    match log {
        Some(l) => Some(*l),
        None => None,
    }
}

/// The keyed annotations of some lines of one side of a hunk.
pub open spec fn side_entries(
    log: Option<AuthorshipLog>,
    file: String,
    lines: Seq<u32>,
    side: LineSide,
    cache: Seq<(Seq<char>, Option<PromptRecord>)>,
) -> Seq<(DiffLineKey, Attribution)> {
    Seq::new(
        lines.len(),
        |i: int|
            ((DiffLineKey { file: file, line: lines[i], side: side }), annotated(
                log,
                file@,
                lines[i] as int,
                cache,
            )),
    )
}

/// Deleted lines annotated from the old log, added lines from the new
/// one, hunk by hunk.
pub open spec fn overlay_of(
    old_log: Option<AuthorshipLog>,
    new_log: Option<AuthorshipLog>,
    hunks: Seq<DiffHunk>,
    cache: Seq<(Seq<char>, Option<PromptRecord>)>,
) -> Seq<(DiffLineKey, Attribution)>
    decreases hunks.len(),
{
    if hunks.len() == 0 {
        Seq::empty()
    } else {
        let h = hunks.last();
        overlay_of(old_log, new_log, hunks.drop_last(), cache) + side_entries(
            old_log,
            h.file_path,
            h.deleted_lines@,
            LineSide::Old,
            cache,
        ) + side_entries(new_log, h.file_path, h.added_lines@, LineSide::New, cache)
    }
}

fn annotate(
    log: Option<&AuthorshipLog>,
    file: &String,
    line: u32,
    cache: &StrMap<Option<PromptRecord>>,
) -> (r: Attribution)
    ensures
        r == annotated(loaded(log), file@, line as int, cache@),
{
    match log {
        None => Attribution::NoData,
        Some(l) => match l.get_line_attribution(file.as_str(), line, cache) {
            Some((_, _, Some(pr))) => Attribution::Ai(pr.agent_id.tool.clone()),
            Some((author, _, None)) => Attribution::Human(author.username.clone()),
            None => Attribution::NoData,
        },
    }
}

fn annotate_side(
    out: &mut Vec<(DiffLineKey, Attribution)>,
    log: Option<&AuthorshipLog>,
    file: &String,
    lines: &Vec<u32>,
    side: LineSide,
    cache: &StrMap<Option<PromptRecord>>,
)
    ensures
        final(out)@ == old(out)@ + side_entries(loaded(log), *file, lines@, side, cache@),
{
    let ghost start = out@;
    let mut i: usize = 0;
    while i < lines.len()
        invariant
            0 <= i <= lines@.len(),
            out@ == start + side_entries(loaded(log), *file, lines@.subrange(0, i as int), side, cache@),
        decreases lines@.len() - i,
    {
        let attribution = annotate(log, file, lines[i], cache);
        out.push((DiffLineKey { file: file.clone(), line: lines[i], side }, attribution));
        i = i + 1;
        assert(out@ =~= start + side_entries(loaded(log), *file, lines@.subrange(0, i as int), side, cache@));
    }
    assert(lines@.subrange(0, lines@.len() as int) =~= lines@);
}

/// The annotation of every deleted and added line of `hunks`: deleted
/// lines from `old_log`, added lines from `new_log`, `NoData` where a log
/// is missing or has no session for the line. `foreign_prompts_cache`
/// holds the prompt records found in other commits' notes.
pub fn overlay_diff_attributions(
    old_log: Option<&AuthorshipLog>,
    new_log: Option<&AuthorshipLog>,
    hunks: &[DiffHunk],
    foreign_prompts_cache: &StrMap<Option<PromptRecord>>,
) -> (r: Vec<(DiffLineKey, Attribution)>)
    ensures
        r@ == overlay_of(loaded(old_log), loaded(new_log), hunks@, foreign_prompts_cache@),
{
    let mut out: Vec<(DiffLineKey, Attribution)> = Vec::new();
    let mut i: usize = 0;
    while i < hunks.len()
        invariant
            0 <= i <= hunks@.len(),
            out@ == overlay_of(loaded(old_log), loaded(new_log), hunks@.subrange(0, i as int), foreign_prompts_cache@),
        decreases hunks@.len() - i,
    {
        let hunk = &hunks[i];
        annotate_side(&mut out, old_log, &hunk.file_path, &hunk.deleted_lines, LineSide::Old, foreign_prompts_cache);
        annotate_side(&mut out, new_log, &hunk.file_path, &hunk.added_lines, LineSide::New, foreign_prompts_cache);
        assert(hunks@.subrange(0, i + 1).drop_last() =~= hunks@.subrange(0, i as int));
        i = i + 1;
    }
    assert(hunks@.subrange(0, hunks@.len() as int) =~= hunks@);
    out
}

/// The annotation printed after a diff line.
pub open spec fn attribution_text(a: Attribution) -> Seq<char> {
    match a {
        Attribution::Ai(tool) => "\u{f0}\u{178}\u{a4}\u{2013}"@ + tool@,
        Attribution::Human(user) => "\u{f0}\u{178}\u{2018}\u{a4}"@ + user@,
        Attribution::NoData => "[no-data]"@,
    }
}

pub fn format_attribution(attribution: &Attribution) -> (r: String)
    ensures
        r@ == attribution_text(*attribution),
{
    let mut out: Vec<char> = Vec::new();
    match attribution {
        Attribution::Ai(tool) => {
            push_str(&mut out, "\u{f0}\u{178}\u{a4}\u{2013}");
            push_str(&mut out, tool.as_str());
        },
        Attribution::Human(user) => {
            push_str(&mut out, "\u{f0}\u{178}\u{2018}\u{a4}");
            push_str(&mut out, user.as_str());
        },
        Attribution::NoData => {
            push_str(&mut out, "[no-data]");
        },
    }
    string_of(&out)
}

} // verus!
