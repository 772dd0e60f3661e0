use vstd::prelude::*;

use crate::line_range::{
    all_wf, canonical, covers, lemma_canonical_unique, lemma_span, lines_of, removed, shifted, sort_by_start,
    sorted_by_start, span, LineRange,
};
use crate::commit_model::{additions_for, ai_session, authors_known, commit_entries, consolidated_view, deletions_for, last_entry, last_in};
use crate::consolidate::{consolidate_entries, consolidated, entries_wf, hash_present};
use crate::str_map::{filter_keys, has_key, lookup, member_of, StrMap};
use crate::short_hash::{generate_short_hash, short_hash_of};
use crate::str_map::{distinct_keys, lemma_lookup_at};
use crate::working_log::{Checkpoint, CheckpointKind, CheckpointLineStats, LineAttribution, HUMAN_AUTHOR};

verus! {

/// The author shown for an AI-written line.
#[derive(Debug, Clone, PartialEq, Eq)]
pub struct Author {
    pub username: String,
    pub email: String,
}

/// Authorship log format version identifier.
pub const AUTHORSHIP_LOG_VERSION: &'static str = "authorship/3.0.0";

/// Identity of an AI agent session.
#[derive(Debug, Clone, PartialEq, Eq)]
pub struct AgentId {
    pub tool: String,
    pub id: String,
    pub model: String,
}

/// One message of a session transcript.
#[derive(Debug, Clone, PartialEq, Eq)]
pub enum Message {
    User { text: String, timestamp: Option<String> },
    Assistant { text: String, timestamp: Option<String> },
    ToolUse { name: String, input: String, timestamp: Option<String> },
}

/// Per-session metadata kept in an authorship log.
#[derive(Debug, Clone, PartialEq, Eq)]
pub struct PromptRecord {
    pub agent_id: AgentId,
    pub human_author: Option<String>,
    pub messages: Vec<Message>,
    pub total_additions: u32,
    pub total_deletions: u32,
    pub accepted_lines: u32,
    pub overriden_lines: u32,
}

/// Metadata section that goes below the divider.
#[derive(Debug, PartialEq, Eq)]
pub struct AuthorshipMetadata {
    pub schema_version: String,
    pub base_commit_sha: String,
    pub prompts: StrMap<PromptRecord>,
}

/// Attestation entry: a session's short hash and the lines it wrote.
#[derive(Debug, Clone, PartialEq, Eq)]
pub struct AttestationEntry {
    pub hash: String,
    pub line_ranges: Vec<LineRange>,
}

/// The attestation entries of one file.
#[derive(Debug, Clone, PartialEq, Eq)]
pub struct FileAttestation {
    pub file_path: String,
    pub entries: Vec<AttestationEntry>,
}

/// The authorship record of one commit.
#[derive(Debug, PartialEq, Eq)]
pub struct AuthorshipLog {
    pub attestations: Vec<FileAttestation>,
    pub metadata: AuthorshipMetadata,
}

/// Removes `r` from each range of `cur`, keeping the pieces in order.
pub open spec fn remove_each(cur: Seq<LineRange>, r: LineRange) -> Seq<LineRange>
    decreases cur.len(),
{
    if cur.len() == 0 {
        cur
    } else {
        remove_each(cur.drop_last(), r) + removed(cur.last(), r)
    }
}

/// Removes each range of `rems` in turn.
pub open spec fn remove_all(cur: Seq<LineRange>, rems: Seq<LineRange>) -> Seq<LineRange>
    decreases rems.len(),
{
    if rems.len() == 0 {
        cur
    } else {
        remove_each(remove_all(cur, rems.drop_last()), rems.last())
    }
}

/// Shifts each range, dropping those that vanish.
pub open spec fn shift_all(cur: Seq<LineRange>, p: int, d: int) -> Seq<LineRange>
    decreases cur.len(),
{
    if cur.len() == 0 {
        cur
    } else {
        let rest = shift_all(cur.drop_last(), p, d);
        match shifted(cur.last(), p, d) {
            Some(x) => rest.push(x),
            None => rest,
        }
    }
}

proof fn lemma_shift_all_zero(cur: Seq<LineRange>, p: int)
    ensures
        shift_all(cur, p, 0) == cur,
    decreases cur.len(),
{
    if cur.len() > 0 {
        lemma_shift_all_zero(cur.drop_last(), p);
        assert(cur.drop_last().push(cur.last()) =~= cur);
    } else {
        assert(cur =~= Seq::<LineRange>::empty());
    }
}

/// The canonical ranges for a set of lines.
pub open spec fn canonical_of(lines: Set<int>) -> Seq<LineRange> {
    choose|s: Seq<LineRange>| canonical(s) && lines_of(s) == lines
}

/// What `merge_line_ranges` promises: `m` is the canonical form of the lines of `x`.
pub open spec fn merged(x: Seq<LineRange>, m: Seq<LineRange>) -> bool {
    canonical(m) && lines_of(m) == lines_of(x)
}

pub proof fn lemma_canonical_of(s: Seq<LineRange>)
    requires
        canonical(s),
    ensures
        canonical_of(lines_of(s)) == s,
{
    let c = canonical_of(lines_of(s));
    assert(canonical(s) && lines_of(s) == lines_of(s));
    lemma_canonical_unique(c, s);
}

proof fn lemma_unique_index(s: Seq<(Seq<char>, PromptRecord)>, i: int, k: Seq<char>)
    requires
        distinct_keys(s),
        0 <= i < s.len(),
        s[i].0 == k,
    ensures
        has_key(s, k),
        (choose|j: int| 0 <= j < s.len() && (#[trigger] s[j]).0 == k) == i,
{
    assert(has_key(s, k));
    let j = choose|j: int| 0 <= j < s.len() && (#[trigger] s[j]).0 == k;
    if j != i {
        if j < i {
            assert(s[j].0 != s[i].0);
        } else {
            assert(s[i].0 != s[j].0);
        }
    }
}

/// Whether the carried-in prompt records hold `k`.
pub open spec fn foreign_key(f: Option<&StrMap<PromptRecord>>, k: Seq<char>) -> bool {
    match f {
        Some(m) => has_key(m@, k),
        None => false,
    }
}

proof fn lemma_kept_distinct(fs: Seq<FileAttestation>)
    ensures
        forall|a: int, b: int| #![trigger kept_files(fs)[a], kept_files(fs)[b]]
            0 <= a < b < kept_files(fs).len() ==> kept_files(fs)[a] < kept_files(fs)[b],
        forall|a: int| 0 <= a < kept_files(fs).len() ==> 0 <= #[trigger] kept_files(fs)[a] < fs.len(),
    decreases fs.len(),
{
    if fs.len() > 0 {
        let t = fs.drop_last();
        lemma_kept_distinct(t);
        let k = kept_files(t);
        let r = kept_files(fs);
        assert forall|a: int| 0 <= a < r.len() implies r[a] < fs.len() && (a < k.len() ==> r[a] == k[a])
            && (a == k.len() ==> r[a] == fs.len() - 1) && 0 <= r[a] by {
            if a < k.len() {
                assert(0 <= k[a] < t.len());
            }
        }
        assert forall|a: int, b: int| #![trigger r[a], r[b]] 0 <= a < b < r.len() implies r[a] < r[b] by {
            if b < k.len() {
                assert(k[a] < k[b]);
            } else {
                assert(0 <= k[a] < t.len());
            }
        }
    }
}

pub proof fn lemma_kept_in_range(fs: Seq<FileAttestation>, i: int)
    requires
        0 <= i < kept_files(fs).len(),
    ensures
        0 <= kept_files(fs)[i] < fs.len(),
        has_lines(fs[kept_files(fs)[i]]),
    decreases fs.len(),
{
    if fs.len() > 0 {
        let k = kept_files(fs.drop_last());
        if i < k.len() {
            lemma_kept_in_range(fs.drop_last(), i);
            assert(fs.drop_last()[k[i]] == fs[k[i]]);
        }
    }
}

proof fn lemma_remove_each(cur: Seq<LineRange>, r: LineRange)
    requires
        all_wf(cur),
        r.wf(),
    ensures
        all_wf(remove_each(cur, r)),
        lines_of(remove_each(cur, r)) == lines_of(cur).difference(r.line_set()),
    decreases cur.len(),
{
    if cur.len() > 0 {
        let rest = cur.drop_last();
        lemma_remove_each(rest, r);
        let a = remove_each(rest, r);
        let b = removed(cur.last(), r);
        crate::line_range::lemma_removed(cur.last(), r);
        crate::line_range::lemma_lines_concat(a, b);
        crate::line_range::lemma_lines_push(rest, cur.last());
        assert(rest.push(cur.last()) =~= cur);
        assert(lines_of(remove_each(cur, r)) =~= lines_of(cur).difference(r.line_set()));
    } else {
        assert(lines_of(cur) =~= Set::empty());
        assert(lines_of(remove_each(cur, r)) =~= lines_of(cur).difference(r.line_set()));
    }
}

/// Whether some entry of `atts` carries the hash `k`.
pub open spec fn referenced(atts: Seq<FileAttestation>, k: Seq<char>) -> bool {
    exists|i: int, j: int|
        0 <= i < atts.len() && 0 <= j < atts[i].entries@.len() && (#[trigger] atts[i].entries@[
            j
        ]).hash@ == k
}

pub open spec fn referenced_by(atts: Seq<FileAttestation>) -> spec_fn(Seq<char>) -> bool {
    |k: Seq<char>| referenced(atts, k)
}

/// Every hash of an entry is a key of the prompt records.
pub open spec fn hash_covered(atts: Seq<FileAttestation>, prompts: Seq<(Seq<char>, PromptRecord)>) -> bool {
    forall|i: int, j: int|
        0 <= i < atts.len() && 0 <= j < atts[i].entries@.len() ==> has_key(
            prompts,
            (#[trigger] atts[i].entries@[j]).hash@,
        )
}

/// Runs of consecutive lines, each as one line attribution.
pub open spec fn runs_of(lines: Seq<u32>) -> Seq<(int, int)>
    decreases lines.len(),
{
    if lines.len() == 0 {
        Seq::empty()
    } else {
        let rest = runs_of(lines.drop_last());
        let x = lines.last() as int;
        if rest.len() > 0 && rest.last().1 + 1 == x {
            rest.update(rest.len() - 1, (rest.last().0, x))
        } else {
            rest.push((x, x))
        }
    }
}

impl AgentId {
    pub fn copy(&self) -> (r: Self)
        ensures
            r == *self,
    {
        AgentId { tool: self.tool.clone(), id: self.id.clone(), model: self.model.clone() }
    }
}

fn copy_opt(s: &Option<String>) -> (r: Option<String>)
    ensures
        r == *s,
{
    match s {
        Some(x) => Some(x.clone()),
        None => None,
    }
}

impl Message {
    pub fn copy(&self) -> (r: Self)
        ensures
            r == *self,
    {
        match self {
            Message::User { text, timestamp } => Message::User {
                text: text.clone(),
                timestamp: copy_opt(timestamp),
            },
            Message::Assistant { text, timestamp } => Message::Assistant {
                text: text.clone(),
                timestamp: copy_opt(timestamp),
            },
            Message::ToolUse { name, input, timestamp } => Message::ToolUse {
                name: name.clone(),
                input: input.clone(),
                timestamp: copy_opt(timestamp),
            },
        }
    }
}

/// A copy of a list of messages.
pub fn copy_messages(ms: &Vec<Message>) -> (r: Vec<Message>)
    ensures
        r@ == ms@,
{
    let mut out: Vec<Message> = Vec::new();
    let mut i: usize = 0;
    while i < ms.len()
        invariant
            0 <= i <= ms@.len(),
            out@ == ms@.subrange(0, i as int),
        decreases ms@.len() - i,
    {
        out.push(ms[i].copy());
        i = i + 1;
        assert(out@ =~= ms@.subrange(0, i as int));
    }
    out
}

impl PromptRecord {
    /// The same record, field for field.
    pub open spec fn same_as(self, other: PromptRecord) -> bool {
        &&& self.agent_id == other.agent_id
        &&& self.human_author == other.human_author
        &&& self.messages@ == other.messages@
        &&& self.total_additions == other.total_additions
        &&& self.total_deletions == other.total_deletions
        &&& self.accepted_lines == other.accepted_lines
        &&& self.overriden_lines == other.overriden_lines
    }

    pub fn copy(&self) -> (r: Self)
        ensures
            r.same_as(*self),
    {
        PromptRecord {
            agent_id: self.agent_id.copy(),
            human_author: copy_opt(&self.human_author),
            messages: copy_messages(&self.messages),
            total_additions: self.total_additions,
            total_deletions: self.total_deletions,
            accepted_lines: self.accepted_lines,
            overriden_lines: self.overriden_lines,
        }
    }
}

/// Sum of the sizes of the ranges.
pub open spec fn ranges_size(rs: Seq<LineRange>) -> int
    decreases rs.len(),
{
    if rs.len() == 0 {
        0
    } else {
        ranges_size(rs.drop_last()) + rs.last().size()
    }
}

/// Lines held by the entries of `es` with hash `k`.
pub open spec fn entry_lines_for(es: Seq<AttestationEntry>, k: Seq<char>) -> int
    decreases es.len(),
{
    if es.len() == 0 {
        0
    } else {
        entry_lines_for(es.drop_last(), k) + if es.last().hash@ == k {
            ranges_size(es.last().line_ranges@)
        } else {
            0
        }
    }
}

/// Lines held by the session `k` across all files.
pub open spec fn file_lines_for(fs: Seq<FileAttestation>, k: Seq<char>) -> int
    decreases fs.len(),
{
    if fs.len() == 0 {
        0
    } else {
        file_lines_for(fs.drop_last(), k) + entry_lines_for(fs.last().entries@, k)
    }
}

pub open spec fn files_wf(fs: Seq<FileAttestation>) -> bool {
    forall|i: int| 0 <= i < fs.len() ==> entries_wf((#[trigger] fs[i]).entries@)
}

/// A file has some entry with lines.
pub open spec fn has_lines(f: FileAttestation) -> bool {
    exists|j: int| 0 <= j < f.entries@.len() && (#[trigger] f.entries@[j]).line_ranges@.len() > 0
}

/// Positions of the files that keep at least one entry.
pub open spec fn kept_files(fs: Seq<FileAttestation>) -> Seq<int>
    decreases fs.len(),
{
    if fs.len() == 0 {
        Seq::empty()
    } else {
        let k = kept_files(fs.drop_last());
        if has_lines(fs.last()) {
            k.push(fs.len() - 1)
        } else {
            k
        }
    }
}

/// A counter of a session, zero when absent.
pub open spec fn count_of(m: Seq<(Seq<char>, u32)>, k: Seq<char>) -> u32 {
    match lookup(m, k) {
        Some(v) => v,
        None => 0,
    }
}

pub open spec fn capped(n: int) -> u32 {
    if n > u32::MAX {
        u32::MAX
    } else {
        n as u32
    }
}

pub open spec fn sat64(n: int) -> int {
    if n > u64::MAX {
        u64::MAX as int
    } else {
        n
    }
}

pub proof fn lemma_ranges_size_nonneg_pub(rs: Seq<LineRange>)
    requires
        all_wf(rs),
    ensures
        ranges_size(rs) >= 0,
{
    lemma_ranges_size_nonneg(rs);
}

proof fn lemma_ranges_size_nonneg(rs: Seq<LineRange>)
    requires
        all_wf(rs),
    ensures
        ranges_size(rs) >= 0,
    decreases rs.len(),
{
    if rs.len() > 0 {
        assert(all_wf(rs.drop_last())) by {
            assert forall|i: int| 0 <= i < rs.drop_last().len() implies (#[trigger] rs.drop_last()[i]).wf() by {
                assert(rs.drop_last()[i] == rs[i]);
            }
        }
        lemma_ranges_size_nonneg(rs.drop_last());
        assert(rs.last().wf());
    }
}

proof fn lemma_entry_lines_nonneg(es: Seq<AttestationEntry>, k: Seq<char>)
    requires
        entries_wf(es),
    ensures
        entry_lines_for(es, k) >= 0,
    decreases es.len(),
{
    if es.len() > 0 {
        assert(entries_wf(es.drop_last())) by {
            assert forall|i: int| 0 <= i < es.drop_last().len() implies all_wf(
                (#[trigger] es.drop_last()[i]).line_ranges@,
            ) by {
                assert(es.drop_last()[i] == es[i]);
            }
        }
        lemma_entry_lines_nonneg(es.drop_last(), k);
        lemma_ranges_size_nonneg(es.last().line_ranges@);
    }
}

pub(crate) fn size_of_ranges(rs: &Vec<LineRange>) -> (r: u64)
    requires
        all_wf(rs@),
    ensures
        r == sat64(ranges_size(rs@)),
{
    let mut acc: u64 = 0;
    let mut i: usize = 0;
    while i < rs.len()
        invariant
            0 <= i <= rs@.len(),
            all_wf(rs@),
            acc == sat64(ranges_size(rs@.subrange(0, i as int))),
        decreases rs@.len() - i,
    {
        let ghost pre = rs@.subrange(0, i as int);
        assert(rs@.subrange(0, i + 1).drop_last() =~= pre);
        proof {
            assert(all_wf(pre)) by {
                assert forall|q: int| 0 <= q < pre.len() implies (#[trigger] pre[q]).wf() by {
                    assert(pre[q] == rs@[q]);
                }
            }
            lemma_ranges_size_nonneg(pre);
        }
        let v = count_line_range(&rs[i]);
        acc = if acc > u64::MAX - v {
            u64::MAX
        } else {
            acc + v
        };
        i = i + 1;
    }
    assert(rs@.subrange(0, rs@.len() as int) =~= rs@);
    acc
}

fn lines_in_entries(es: &Vec<AttestationEntry>, k: &str) -> (r: u64)
    requires
        entries_wf(es@),
    ensures
        r == sat64(entry_lines_for(es@, k@)),
{
    let mut acc: u64 = 0;
    let mut i: usize = 0;
    while i < es.len()
        invariant
            0 <= i <= es@.len(),
            entries_wf(es@),
            acc == sat64(entry_lines_for(es@.subrange(0, i as int), k@)),
        decreases es@.len() - i,
    {
        let ghost pre = es@.subrange(0, i as int);
        assert(es@.subrange(0, i + 1).drop_last() =~= pre);
        proof {
            assert(entries_wf(pre)) by {
                assert forall|q: int| 0 <= q < pre.len() implies all_wf(
                    (#[trigger] pre[q]).line_ranges@,
                ) by {
                    assert(pre[q] == es@[q]);
                }
            }
            lemma_entry_lines_nonneg(pre, k@);
            lemma_ranges_size_nonneg(es@[i as int].line_ranges@);
        }
        if crate::text::str_eq(es[i].hash.as_str(), k) {
            let v = size_of_ranges(&es[i].line_ranges);
            acc = if acc > u64::MAX - v {
                u64::MAX
            } else {
                acc + v
            };
        }
        i = i + 1;
    }
    assert(es@.subrange(0, es@.len() as int) =~= es@);
    acc
}

fn lines_in_files(fs: &Vec<FileAttestation>, k: &str) -> (r: u64)
    requires
        files_wf(fs@),
    ensures
        r == sat64(file_lines_for(fs@, k@)),
{
    let mut acc: u64 = 0;
    let mut i: usize = 0;
    while i < fs.len()
        invariant
            0 <= i <= fs@.len(),
            files_wf(fs@),
            acc == sat64(file_lines_for(fs@.subrange(0, i as int), k@)),
        decreases fs@.len() - i,
    {
        let ghost pre = fs@.subrange(0, i as int);
        assert(fs@.subrange(0, i + 1).drop_last() =~= pre);
        proof {
            lemma_file_lines_nonneg(pre, k@);
            lemma_entry_lines_nonneg(fs@[i as int].entries@, k@);
        }
        let v = lines_in_entries(&fs[i].entries, k);
        acc = if acc > u64::MAX - v {
            u64::MAX
        } else {
            acc + v
        };
        i = i + 1;
    }
    assert(fs@.subrange(0, fs@.len() as int) =~= fs@);
    acc
}

proof fn lemma_file_lines_nonneg(fs: Seq<FileAttestation>, k: Seq<char>)
    ensures
        files_wf(fs) ==> file_lines_for(fs, k) >= 0,
    decreases fs.len(),
{
    if fs.len() > 0 && files_wf(fs) {
        assert(files_wf(fs.drop_last())) by {
            assert forall|i: int| 0 <= i < fs.drop_last().len() implies entries_wf(
                (#[trigger] fs.drop_last()[i]).entries@,
            ) by {
                assert(fs.drop_last()[i] == fs[i]);
            }
        }
        lemma_file_lines_nonneg(fs.drop_last(), k);
        lemma_entry_lines_nonneg(fs.last().entries@, k);
    }
}

/// Some entry of the checkpoint names `path`.
pub open spec fn touched(entries: Seq<crate::working_log::WorkingLogEntry>, path: Seq<char>) -> bool {
    exists|e: int| 0 <= e < entries.len() && (#[trigger] entries[e]).file@ == path
}

/// The attestations from position `from` on name files the checkpoint touches.
pub open spec fn added_only_touched(
    from: int,
    atts: Seq<FileAttestation>,
    entries: Seq<crate::working_log::WorkingLogEntry>,
) -> bool {
    forall|i: int| from <= i < atts.len() ==> touched(entries, #[trigger] atts[i].file_path@)
}

/// No two attestations name the same file.
pub open spec fn distinct_paths(atts: Seq<FileAttestation>) -> bool {
    forall|i: int, j: int| #![trigger atts[i], atts[j]] 0 <= i < j < atts.len() ==> atts[i].file_path@ != atts[j].file_path@
}

/// Entry `e` is the last one for its path among the first `upto`.
pub open spec fn last_for_path(entries: Seq<crate::working_log::WorkingLogEntry>, e: int, upto: int) -> bool {
    0 <= e < upto && upto <= entries.len() && forall|f: int|
        e < f < upto ==> (#[trigger] entries[f]).file@ != entries[e].file@
}

/// Some file of `atts` has the entry's path and its grouped entries.
pub open spec fn file_replaced(atts: Seq<FileAttestation>, entry: crate::working_log::WorkingLogEntry) -> bool {
    exists|i: int|
        0 <= i < atts.len() && (#[trigger] atts[i]).file_path@ == entry.file@ && entries_view(
            atts[i].entries@,
        ) == grouped(entry.line_attributions@)
}

/// The range a line attribution stands for.
pub open spec fn line_range_of(la: LineAttribution) -> LineRange {
    if la.start_line == la.end_line {
        LineRange::Single(la.start_line)
    } else {
        LineRange::Range(la.start_line, la.end_line)
    }
}

/// The position of key `k` in `g`.
pub open spec fn key_index(g: Seq<(Seq<char>, Seq<LineRange>)>, k: Seq<char>) -> int {
    choose|i: int| 0 <= i < g.len() && (#[trigger] g[i]).0 == k
}

/// The ranges of each non-human author, in order of first appearance.
pub open spec fn grouped(las: Seq<LineAttribution>) -> Seq<(Seq<char>, Seq<LineRange>)>
    decreases las.len(),
{
    if las.len() == 0 {
        Seq::empty()
    } else {
        let g = grouped(las.drop_last());
        let la = las.last();
        let k = la.author_id@;
        if k == HUMAN_AUTHOR@ {
            g
        } else if has_key(g, k) {
            g.update(key_index(g, k), (k, g[key_index(g, k)].1.push(line_range_of(la))))
        } else {
            g.push((k, seq![line_range_of(la)]))
        }
    }
}

/// An entry as its hash and ranges.
pub open spec fn entries_view(es: Seq<AttestationEntry>) -> Seq<(Seq<char>, Seq<LineRange>)> {
    es.map_values(|e: AttestationEntry| (e.hash@, e.line_ranges@))
}

/// The added and deleted line counts of a checkpoint's own kind.
pub open spec fn kind_additions(stats: CheckpointLineStats, kind: CheckpointKind) -> u32 {
    match kind {
        CheckpointKind::Human => stats.human_additions,
        CheckpointKind::AiAgent => stats.ai_agent_additions,
        CheckpointKind::AiTab => stats.ai_tab_additions,
    }
}

pub open spec fn kind_deletions(stats: CheckpointLineStats, kind: CheckpointKind) -> u32 {
    match kind {
        CheckpointKind::Human => stats.human_deletions,
        CheckpointKind::AiAgent => stats.ai_agent_deletions,
        CheckpointKind::AiTab => stats.ai_tab_deletions,
    }
}

impl CheckpointLineStats {
    pub fn additions_for_kind(&self, kind: CheckpointKind) -> (r: u32)
        ensures
            r == kind_additions(*self, kind),
    {
        match kind {
            CheckpointKind::Human => self.human_additions,
            CheckpointKind::AiAgent => self.ai_agent_additions,
            CheckpointKind::AiTab => self.ai_tab_additions,
        }
    }

    pub fn deletions_for_kind(&self, kind: CheckpointKind) -> (r: u32)
        ensures
            r == kind_deletions(*self, kind),
    {
        match kind {
            CheckpointKind::Human => self.human_deletions,
            CheckpointKind::AiAgent => self.ai_agent_deletions,
            CheckpointKind::AiTab => self.ai_tab_deletions,
        }
    }
}

pub open spec fn sat_add(a: u32, b: u32) -> u32 {
    if a + b > u32::MAX {
        u32::MAX
    } else {
        (a + b) as u32
    }
}

/// Adds `amount` to the counter of `key`, saturating.
fn bump(counters: &mut StrMap<u32>, key: &String, amount: u32)
    ensures
        lookup(final(counters)@, key@) == Some(sat_add(count_of(old(counters)@, key@), amount)),
        forall|k: Seq<char>| k != key@ ==> #[trigger] lookup(final(counters)@, k) == lookup(old(counters)@, k),
{
    let current: u32 = match counters.get(key.as_str()) {
        Some(v) => *v,
        None => 0,
    };
    let next = current.saturating_add(amount);
    let _ = counters.len();
    let ghost before = counters@;
    counters.insert(key.clone(), next);
    let _ = counters.len();
    proof {
        assert forall|k: Seq<char>| k != key@ implies #[trigger] lookup(counters@, k) == lookup(before, k) by {
            crate::str_map::lemma_lookup_other(before, counters@, key@, next, k);
        }
    }
}

fn range_of_attribution(la: &LineAttribution) -> (r: LineRange)
    ensures
        r == line_range_of(*la),
{
    if la.start_line == la.end_line {
        LineRange::Single(la.start_line)
    } else {
        LineRange::Range(la.start_line, la.end_line)
    }
}

proof fn lemma_grouped_distinct(las: Seq<LineAttribution>)
    ensures
        distinct_keys(grouped(las)),
    decreases las.len(),
{
    if las.len() > 0 {
        lemma_grouped_distinct(las.drop_last());
        let g = grouped(las.drop_last());
        let k = las.last().author_id@;
        let r = grouped(las);
        if k != HUMAN_AUTHOR@ {
            if has_key(g, k) {
                let i = key_index(g, k);
                assert forall|a: int, b: int| #![trigger r[a], r[b]] 0 <= a < b < r.len() implies r[a].0 != r[b].0 by {
                    assert(g[a].0 != g[b].0);
                }
            } else {
                assert forall|a: int, b: int| #![trigger r[a], r[b]] 0 <= a < b < r.len() implies r[a].0 != r[b].0 by {
                    if b == g.len() {
                        if g[a].0 == k {
                            assert(has_key(g, k));
                        }
                    } else {
                        assert(g[a].0 != g[b].0);
                    }
                }
            }
        }
    }
}

/// Every line attribution of the checkpoint runs forwards.
pub open spec fn checkpoint_valid(c: Checkpoint) -> bool {
    forall|e: int, j: int|
        0 <= e < c.entries@.len() && 0 <= j < c.entries@[e].line_attributions@.len() ==> (
        #[trigger] c.entries@[e].line_attributions@[j]).start_line <= c.entries@[e].line_attributions@[j].end_line
}

pub open spec fn attributions_valid(las: Seq<LineAttribution>) -> bool {
    forall|j: int| 0 <= j < las.len() ==> (#[trigger] las[j]).start_line <= las[j].end_line
}

proof fn lemma_grouped_wf(las: Seq<LineAttribution>)
    requires
        attributions_valid(las),
    ensures
        forall|i: int| 0 <= i < grouped(las).len() ==> all_wf((#[trigger] grouped(las)[i]).1),
    decreases las.len(),
{
    if las.len() > 0 {
        let pre = las.drop_last();
        assert(attributions_valid(pre)) by {
            assert forall|j: int| 0 <= j < pre.len() implies (#[trigger] pre[j]).start_line <= pre[j].end_line by {
                assert(pre[j] == las[j]);
            }
        }
        lemma_grouped_wf(pre);
        let g = grouped(pre);
        let la = las.last();
        assert(la.start_line <= la.end_line);
        assert(line_range_of(la).wf());
        let r = grouped(las);
        assert forall|i: int| 0 <= i < r.len() implies all_wf((#[trigger] r[i]).1) by {
            if la.author_id@ != HUMAN_AUTHOR@ {
                if has_key(g, la.author_id@) {
                    let ki = key_index(g, la.author_id@);
                    if i == ki {
                        assert(all_wf(g[ki].1));
                        assert forall|q: int| 0 <= q < r[i].1.len() implies (#[trigger] r[i].1[q]).wf() by {
                            if q < g[ki].1.len() {
                                assert(r[i].1[q] == g[ki].1[q]);
                            }
                        }
                    } else {
                        assert(r[i] == g[i]);
                    }
                } else if i < g.len() {
                    assert(r[i] == g[i]);
                }
            }
        }
    }
}

/// The prompt record for `h`: the log's own, else one found in other
/// commits' notes (`cache`), if any.
pub open spec fn record_for(
    prompts: Seq<(Seq<char>, PromptRecord)>,
    cache: Seq<(Seq<char>, Option<PromptRecord>)>,
    h: Seq<char>,
) -> Option<PromptRecord> {
    if has_key(prompts, h) {
        lookup(prompts, h)
    } else {
        match lookup(cache, h) {
            Some(Some(r)) => Some(r),
            _ => None,
        }
    }
}

/// Scanning entries `upto - 1` down to 0: the first entry holding `line`
/// whose session has a prompt record, with that record.
pub open spec fn attribution_in(
    entries: Seq<AttestationEntry>,
    upto: int,
    line: int,
    prompts: Seq<(Seq<char>, PromptRecord)>,
    cache: Seq<(Seq<char>, Option<PromptRecord>)>,
) -> Option<(Seq<char>, PromptRecord)>
    decreases upto,
{
    if upto <= 0 || upto > entries.len() {
        None
    } else {
        let e = entries[upto - 1];
        if covers(e.line_ranges@, line) && record_for(prompts, cache, e.hash@) is Some {
            Some((e.hash@, record_for(prompts, cache, e.hash@)->Some_0))
        } else {
            attribution_in(entries, upto - 1, line, prompts, cache)
        }
    }
}

/// Position of the first attestation for `file`.
pub open spec fn file_index(atts: Seq<FileAttestation>, file: Seq<char>) -> Option<int> {
    if exists|i: int| 0 <= i < atts.len() && (#[trigger] atts[i]).file_path@ == file {
        Some(
            choose|i: int|
                0 <= i < atts.len() && (#[trigger] atts[i]).file_path@ == file && forall|j: int|
                    0 <= j < i ==> (#[trigger] atts[j]).file_path@ != file,
        )
    } else {
        None
    }
}

/// Who wrote `line` of `file` according to `log`.
pub open spec fn attribution_of(
    log: AuthorshipLog,
    file: Seq<char>,
    line: int,
    cache: Seq<(Seq<char>, Option<PromptRecord>)>,
) -> Option<(Seq<char>, PromptRecord)> {
    match file_index(log.attestations@, file) {
        Some(i) => attribution_in(
            log.attestations@[i].entries@,
            log.attestations@[i].entries@.len() as int,
            line,
            log.metadata.prompts@,
            cache,
        ),
        None => None,
    }
}

/// The lines a committed-hunk map holds for `path` (none when absent).
pub open spec fn committed_lines(committed: Seq<(Seq<char>, Vec<LineRange>)>, path: Seq<char>) -> Set<int> {
    match lookup(committed, path) {
        Some(v) => lines_of(v@),
        None => Set::empty(),
    }
}

/// Each entry cut down to the lines in `c`, as canonical ranges; entries
/// left without lines are dropped.
pub open spec fn filtered_entries(es: Seq<AttestationEntry>, c: Set<int>) -> Seq<(Seq<char>, Seq<LineRange>)>
    decreases es.len(),
{
    if es.len() == 0 {
        Seq::empty()
    } else {
        let rest = filtered_entries(es.drop_last(), c);
        let lines = lines_of(es.last().line_ranges@).intersect(c);
        if lines == Set::<int>::empty() {
            rest
        } else {
            rest.push((es.last().hash@, canonical_of(lines)))
        }
    }
}

/// Each file cut down to its committed lines; files left without entries
/// are dropped.
pub open spec fn filtered_files(
    fs: Seq<FileAttestation>,
    committed: Seq<(Seq<char>, Vec<LineRange>)>,
) -> Seq<(Seq<char>, Seq<(Seq<char>, Seq<LineRange>)>)>
    decreases fs.len(),
{
    if fs.len() == 0 {
        Seq::empty()
    } else {
        let rest = filtered_files(fs.drop_last(), committed);
        let f = fs.last();
        let es = filtered_entries(f.entries@, committed_lines(committed, f.file_path@));
        if es.len() == 0 {
            rest
        } else {
            rest.push((f.file_path@, es))
        }
    }
}

/// Files as paths and entry views.
pub open spec fn files_view(fs: Seq<FileAttestation>) -> Seq<(Seq<char>, Seq<(Seq<char>, Seq<LineRange>)>)> {
    fs.map_values(|f: FileAttestation| (f.file_path@, entries_view(f.entries@)))
}

/// The lines shared by two ranges, if any.
fn intersect(a: &LineRange, b: &LineRange) -> (r: Option<LineRange>)
    requires
        a.wf(),
        b.wf(),
    ensures
        match r {
            Some(x) => x.wf() && x.line_set() == a.line_set().intersect(b.line_set()),
            None => a.line_set().intersect(b.line_set()) == Set::<int>::empty(),
        },
{
    let lo = if a.start() >= b.start() {
        a.start()
    } else {
        b.start()
    };
    let hi = if a.end() <= b.end() {
        a.end()
    } else {
        b.end()
    };
    if lo <= hi {
        let x = LineRange::from_bounds(lo, hi);
        assert(x.line_set() =~= a.line_set().intersect(b.line_set()));
        Some(x)
    } else {
        assert(a.line_set().intersect(b.line_set()) =~= Set::<int>::empty());
        None
    }
}

/// The canonical ranges of the lines of `ranges` that `committed` holds.
fn restrict_ranges(ranges: &Vec<LineRange>, committed: &Vec<LineRange>) -> (r: Vec<LineRange>)
    requires
        all_wf(ranges@),
        all_wf(committed@),
    ensures
        r@ == canonical_of(lines_of(ranges@).intersect(lines_of(committed@))),
        canonical(r@),
        lines_of(r@) == lines_of(ranges@).intersect(lines_of(committed@)),
{
    let mut pieces: Vec<LineRange> = Vec::new();
    let mut i: usize = 0;
    while i < ranges.len()
        invariant
            0 <= i <= ranges@.len(),
            all_wf(ranges@),
            all_wf(committed@),
            all_wf(pieces@),
            lines_of(pieces@) == lines_of(ranges@.subrange(0, i as int)).intersect(lines_of(committed@)),
        decreases ranges@.len() - i,
    {
        let ghost p0 = pieces@;
        let mut j: usize = 0;
        while j < committed.len()
            invariant
                0 <= j <= committed@.len(),
                i < ranges@.len(),
                all_wf(ranges@),
                all_wf(committed@),
                all_wf(pieces@),
                lines_of(pieces@) == lines_of(p0).union(
                    ranges@[i as int].line_set().intersect(lines_of(committed@.subrange(0, j as int))),
                ),
            decreases committed@.len() - j,
        {
            let ghost before = pieces@;
            let cut = intersect(&ranges[i], &committed[j]);
            proof {
                crate::line_range::lemma_lines_push(committed@.subrange(0, j as int), committed@[j as int]);
                assert(committed@.subrange(0, j + 1) =~= committed@.subrange(0, j as int).push(committed@[j as int]));
            }
            if let Some(x) = cut {
                pieces.push(x);
                proof {
                    crate::line_range::lemma_lines_push(before, x);
                }
            }
            proof {
                let a = lines_of(committed@.subrange(0, j as int));
                let b = lines_of(committed@.subrange(0, j + 1));
                let ri = ranges@[i as int].line_set();
                let cj = committed@[j as int].line_set();
                assert(b == a.union(cj));
                assert(ri.intersect(b) =~= ri.intersect(a).union(ri.intersect(cj)));
                match cut {
                    Some(x) => {
                        assert(lines_of(pieces@) == lines_of(before).union(x.line_set()));
                        assert(x.line_set() == ri.intersect(cj));
                    },
                    None => {
                        assert(pieces@ == before);
                        assert(ri.intersect(cj) == Set::<int>::empty());
                    },
                }
            }
            assert(lines_of(pieces@) =~= lines_of(p0).union(
                ranges@[i as int].line_set().intersect(lines_of(committed@.subrange(0, j + 1))),
            ));
            j = j + 1;
        }
        proof {
            assert(committed@.subrange(0, committed@.len() as int) =~= committed@);
            crate::line_range::lemma_lines_push(ranges@.subrange(0, i as int), ranges@[i as int]);
            assert(ranges@.subrange(0, i + 1) =~= ranges@.subrange(0, i as int).push(ranges@[i as int]));
        }
        assert(lines_of(pieces@) =~= lines_of(ranges@.subrange(0, i + 1)).intersect(lines_of(committed@)));
        i = i + 1;
    }
    assert(ranges@.subrange(0, ranges@.len() as int) =~= ranges@);
    AuthorshipLog::merge_line_ranges(&pieces)
}

/// Position of the first attestation for `file`.
fn find_file(atts: &Vec<FileAttestation>, file: &str) -> (r: Option<usize>)
    ensures
        match r {
            Some(i) => i < atts@.len() && file_index(atts@, file@) == Some(i as int),
            None => file_index(atts@, file@) is None,
        },
{
    let mut i: usize = 0;
    while i < atts.len()
        invariant
            0 <= i <= atts@.len(),
            forall|j: int| 0 <= j < i ==> (#[trigger] atts@[j]).file_path@ != file@,
        decreases atts@.len() - i,
    {
        if crate::text::str_eq(atts[i].file_path.as_str(), file) {
            proof {
                let c = choose|c: int|
                    0 <= c < atts@.len() && (#[trigger] atts@[c]).file_path@ == file@ && forall|j: int|
                        0 <= j < c ==> (#[trigger] atts@[j]).file_path@ != file@;
                if c > i {
                    assert(atts@[i as int].file_path@ != file@);
                }
            }
            return Some(i);
        }
        i = i + 1;
    }
    None
}

pub proof fn lemma_grouped_wf_pub(las: Seq<LineAttribution>)
    requires
        attributions_valid(las),
    ensures
        forall|i: int| 0 <= i < grouped(las).len() ==> all_wf((#[trigger] grouped(las)[i]).1),
{
    lemma_grouped_wf(las);
}

/// Position of the entry with hash `k`.
fn find_entry(es: &Vec<AttestationEntry>, k: &str) -> (r: Option<usize>)
    ensures
        match r {
            Some(j) => j < es@.len() && es@[j as int].hash@ == k@,
            None => forall|q: int| 0 <= q < es@.len() ==> (#[trigger] es@[q]).hash@ != k@,
        },
{
    let mut j: usize = 0;
    while j < es.len()
        invariant
            0 <= j <= es@.len(),
            forall|q: int| 0 <= q < j ==> (#[trigger] es@[q]).hash@ != k@,
        decreases es@.len() - j,
    {
        if crate::text::str_eq(es[j].hash.as_str(), k) {
            return Some(j);
        }
        j = j + 1;
    }
    None
}

/// The attestation entries for one file's line attributions: one per
/// non-human author, in order of first appearance.
pub fn group_by_author(las: &Vec<LineAttribution>) -> (r: Vec<AttestationEntry>)
    ensures
        entries_view(r@) == grouped(las@),
{
    proof {
        reveal_strlit("human");
    }
    let mut groups: Vec<AttestationEntry> = Vec::new();
    let mut i: usize = 0;
    while i < las.len()
        invariant
            0 <= i <= las@.len(),
            entries_view(groups@) == grouped(las@.subrange(0, i as int)),
            HUMAN_AUTHOR@ == "human"@,
        decreases las@.len() - i,
    {
        let la = &las[i];
        let ghost pre = las@.subrange(0, i as int);
        let ghost g = grouped(pre);
        assert(las@.subrange(0, i + 1).drop_last() =~= pre);
        assert(las@.subrange(0, i + 1).last() == *la);
        proof {
            lemma_grouped_distinct(pre);
        }
        let range = range_of_attribution(la);
        if crate::text::str_eq(la.author_id.as_str(), HUMAN_AUTHOR) {
        } else {
            let found_at = find_entry(&groups, la.author_id.as_str());
            if let Some(j) = found_at {
                assert(entries_view(groups@)[j as int] == (groups@[j as int].hash@, groups@[j as int].line_ranges@));
                assert(g[j as int].0 == la.author_id@);
                assert(has_key(g, la.author_id@));
                proof {
                    let ki = key_index(g, la.author_id@);
                    if ki != j as int {
                        if ki < j {
                            assert(g[ki].0 != g[j as int].0);
                        } else {
                            assert(g[j as int].0 != g[ki].0);
                        }
                    }
                }
                let mut entry = groups.remove(j);
                let ghost old_ranges = entry.line_ranges@;
                entry.line_ranges.push(range);
                groups.insert(j, entry);
                assert(entries_view(groups@) =~= g.update(j as int, (la.author_id@, g[j as int].1.push(range))));
            } else {
                assert(!has_key(g, la.author_id@)) by {
                    if has_key(g, la.author_id@) {
                        let q = choose|q: int| 0 <= q < g.len() && (#[trigger] g[q]).0 == la.author_id@;
                        assert(entries_view(groups@)[q] == (groups@[q].hash@, groups@[q].line_ranges@));
                        assert(groups@[q].hash@ == la.author_id@);
                    }
                }
                let mut ranges: Vec<LineRange> = Vec::new();
                ranges.push(range);
                groups.push(AttestationEntry::new(la.author_id.clone(), ranges));
                assert(entries_view(groups@) =~= g.push((la.author_id@, seq![range])));
            }
        }
        i = i + 1;
    }
    assert(las@.subrange(0, las@.len() as int) =~= las@);
    groups
}

impl AuthorshipMetadata {
    pub fn new() -> (r: Self)
        ensures
            r.schema_version@ == AUTHORSHIP_LOG_VERSION@,
            r.base_commit_sha@ == Seq::<char>::empty(),
            r.prompts@ == Seq::<(Seq<char>, PromptRecord)>::empty(),
    {
        AuthorshipMetadata {
            schema_version: AUTHORSHIP_LOG_VERSION.to_string(),
            base_commit_sha: String::new(),
            prompts: StrMap::new(),
        }
    }
}

impl AttestationEntry {
    pub fn new(hash: String, line_ranges: Vec<LineRange>) -> (r: Self)
        ensures
            r.hash == hash,
            r.line_ranges == line_ranges,
    {
        AttestationEntry { hash, line_ranges }
    }

    /// Takes every range of `to_remove` out of this entry's lines.
    pub fn remove_line_ranges(&mut self, to_remove: &[LineRange])
        requires
            all_wf(old(self).line_ranges@),
            all_wf(to_remove@),
        ensures
            final(self).hash == old(self).hash,
            final(self).line_ranges@ == remove_all(old(self).line_ranges@, to_remove@),
            all_wf(final(self).line_ranges@),
            lines_of(final(self).line_ranges@) == lines_of(old(self).line_ranges@).difference(
                lines_of(to_remove@),
            ),
    {
        let ghost orig = self.line_ranges@;
        let mut current: Vec<LineRange> = self.line_ranges.clone();
        assert(current@ =~= orig);
        let mut i: usize = 0;
        while i < to_remove.len()
            invariant
                0 <= i <= to_remove@.len(),
                all_wf(to_remove@),
                all_wf(current@),
                current@ == remove_all(orig, to_remove@.subrange(0, i as int)),
                lines_of(current@) == lines_of(orig).difference(
                    lines_of(to_remove@.subrange(0, i as int)),
                ),
            decreases to_remove@.len() - i,
        {
            let remove_range = to_remove[i];
            let mut next: Vec<LineRange> = Vec::new();
            let mut j: usize = 0;
            while j < current.len()
                invariant
                    0 <= j <= current@.len(),
                    all_wf(current@),
                    remove_range.wf(),
                    next@ == remove_each(current@.subrange(0, j as int), remove_range),
                decreases current@.len() - j,
            {
                let pieces = current[j].remove(&remove_range);
                let ghost before = next@;
                let mut k: usize = 0;
                while k < pieces.len()
                    invariant
                        0 <= k <= pieces@.len(),
                        next@ == before + pieces@.subrange(0, k as int),
                    decreases pieces@.len() - k,
                {
                    next.push(pieces[k]);
                    k = k + 1;
                    assert(next@ =~= before + pieces@.subrange(0, k as int));
                }
                assert(pieces@.subrange(0, pieces@.len() as int) =~= pieces@);
                assert(current@.subrange(0, j + 1).drop_last() =~= current@.subrange(
                    0,
                    j as int,
                ));
                j = j + 1;
            }
            assert(current@.subrange(0, current@.len() as int) =~= current@);
            let ghost prefix = to_remove@.subrange(0, i as int);
            assert(to_remove@.subrange(0, i + 1).drop_last() =~= prefix);
            proof {
                lemma_remove_each(current@, remove_range);
                crate::line_range::lemma_lines_push(prefix, remove_range);
                assert(prefix.push(remove_range) =~= to_remove@.subrange(0, i + 1));
                assert(lines_of(next@) =~= lines_of(orig).difference(
                    lines_of(to_remove@.subrange(0, i + 1)),
                ));
            }
            current = next;
            i = i + 1;
        }
        assert(to_remove@.subrange(0, to_remove@.len() as int) =~= to_remove@);
        self.line_ranges = current;
    }

    /// Shifts every range by `offset` lines at `insertion_point`, dropping
    /// the ranges that vanish.
    pub fn shift_line_ranges(&mut self, insertion_point: u32, offset: i32)
        ensures
            final(self).hash == old(self).hash,
            final(self).line_ranges@ == shift_all(
                old(self).line_ranges@,
                insertion_point as int,
                offset as int,
            ),
            offset == 0 ==> final(self).line_ranges@ == old(self).line_ranges@,
    {
        proof {
            lemma_shift_all_zero(self.line_ranges@, insertion_point as int);
        }
        let mut shifted_ranges: Vec<LineRange> = Vec::new();
        let mut i: usize = 0;
        while i < self.line_ranges.len()
            invariant
                0 <= i <= self.line_ranges@.len(),
                shifted_ranges@ == shift_all(
                    self.line_ranges@.subrange(0, i as int),
                    insertion_point as int,
                    offset as int,
                ),
            decreases self.line_ranges@.len() - i,
        {
            let moved = self.line_ranges[i].shift(insertion_point, offset);
            assert(self.line_ranges@.subrange(0, i + 1).drop_last() =~= self.line_ranges@.subrange(
                0,
                i as int,
            ));
            if let Some(r) = moved {
                shifted_ranges.push(r);
            }
            i = i + 1;
        }
        assert(self.line_ranges@.subrange(0, self.line_ranges@.len() as int)
            =~= self.line_ranges@);
        self.line_ranges = shifted_ranges;
    }
}

impl FileAttestation {
    pub fn new(file_path: String) -> (r: Self)
        ensures
            r.file_path == file_path,
            r.entries@ == Seq::<AttestationEntry>::empty(),
    {
        FileAttestation { file_path, entries: Vec::new() }
    }

    pub fn add_entry(&mut self, entry: AttestationEntry)
        ensures
            final(self).file_path == old(self).file_path,
            final(self).entries@ == old(self).entries@.push(entry),
    {
        self.entries.push(entry);
    }
}

/// Working-log line attributions for a sorted list of lines: one per run
/// of consecutive lines, all with the given author and flag.
pub fn compress_lines_to_working_log_format(lines: &[u32], author_id: &str, overridden: bool) -> (r:
    Vec<LineAttribution>)
    ensures
        r@.len() == runs_of(lines@).len(),
        forall|i: int|
            0 <= i < r@.len() ==> {
                &&& (#[trigger] r@[i]).start_line == runs_of(lines@)[i].0
                &&& r@[i].end_line == runs_of(lines@)[i].1
                &&& r@[i].author_id@ == author_id@
                &&& r@[i].overridden == overridden
            },
{
    let mut result: Vec<LineAttribution> = Vec::new();
    let mut i: usize = 0;
    while i < lines.len()
        invariant
            0 <= i <= lines@.len(),
            result@.len() == runs_of(lines@.subrange(0, i as int)).len(),
            forall|q: int|
                0 <= q < result@.len() ==> {
                    &&& (#[trigger] result@[q]).start_line == runs_of(
                        lines@.subrange(0, i as int),
                    )[q].0
                    &&& result@[q].end_line == runs_of(lines@.subrange(0, i as int))[q].1
                    &&& result@[q].author_id@ == author_id@
                    &&& result@[q].overridden == overridden
                },
        decreases lines@.len() - i,
    {
        let line = lines[i];
        let ghost prev = runs_of(lines@.subrange(0, i as int));
        assert(lines@.subrange(0, i + 1).drop_last() =~= lines@.subrange(0, i as int));
        let n = result.len();
        if n > 0 && result[n - 1].end_line as u64 + 1 == line as u64 {
            let start = result[n - 1].start_line;
            result.set(n - 1, LineAttribution::new(start, line, author_id.to_string(), overridden));
        } else {
            result.push(LineAttribution::new(line, line, author_id.to_string(), overridden));
        }
        i = i + 1;
    }
    assert(lines@.subrange(0, lines@.len() as int) =~= lines@);
    result
}

/// Lines counted by a well-formed range.
pub fn count_line_range(range: &LineRange) -> (r: u64)
    requires
        range.wf(),
    ensures
        r == range.size(),
{
    match range {
        LineRange::Single(_) => 1,
        LineRange::Range(start, end) => (*end - *start) as u64 + 1,
    }
}

/// Merging is idempotent, and the merged list holds exactly the lines of the input.
pub proof fn law_merge_canonicalizes(x: Seq<LineRange>, m: Seq<LineRange>, mm: Seq<LineRange>)
    requires
        all_wf(x),
        merged(x, m),
        merged(m, mm),
    ensures
        mm == m,
        lines_of(m) == lines_of(x),
{
    lemma_canonical_unique(mm, m);
}

impl AuthorshipLog {
    pub fn new() -> (r: Self)
        ensures
            r.attestations@ == Seq::<FileAttestation>::empty(),
            r.metadata.schema_version@ == AUTHORSHIP_LOG_VERSION@,
            r.metadata.base_commit_sha@ == Seq::<char>::empty(),
            r.metadata.prompts@ == Seq::<(Seq<char>, PromptRecord)>::empty(),
    {
        AuthorshipLog { attestations: Vec::new(), metadata: AuthorshipMetadata::new() }
    }

    /// Position of the attestation for `file`, appended empty when absent.
    pub fn get_or_create_file(&mut self, file: &str) -> (r: usize)
        ensures
            r < final(self).attestations@.len(),
            final(self).attestations@[r as int].file_path@ == file@,
            final(self).metadata == old(self).metadata,
            forall|q: int| 0 <= q < r ==> (#[trigger] final(self).attestations@[q]).file_path@ != file@,
            (exists|i: int|
                0 <= i < old(self).attestations@.len()
                    && (#[trigger] old(self).attestations@[i]).file_path@ == file@) ==> final(self).attestations@ == old(self).attestations@ && r < old(self).attestations@.len(),
            (forall|i: int|
                0 <= i < old(self).attestations@.len()
                    ==> (#[trigger] old(self).attestations@[i]).file_path@ != file@) ==> final(self).attestations@.drop_last() == old(self).attestations@ && final(self).attestations@[r as int].entries@.len() == 0 && r == old(self).attestations@.len(),
    {
        let mut i: usize = 0;
        while i < self.attestations.len()
            invariant
                0 <= i <= self.attestations@.len(),
                forall|q: int| 0 <= q < i ==> (#[trigger] self.attestations@[q]).file_path@ != file@,
            decreases self.attestations@.len() - i,
        {
            if crate::text::str_eq(self.attestations[i].file_path.as_str(), file) {
                return i;
            }
            i = i + 1;
        }
        let ghost before = self.attestations@;
        self.attestations.push(FileAttestation::new(file.to_string()));
        assert(self.attestations@.drop_last() =~= before);
        i
    }

    /// Keeps only the attributed lines that were committed: each entry is
    /// cut down to the committed ranges of its file (all of it when the file
    /// has none), entries and files left empty are dropped, and so are the
    /// prompt records no entry refers to any more.
    pub fn filter_to_committed_lines(&mut self, committed_hunks: &StrMap<Vec<LineRange>>)
        requires
            files_wf(old(self).attestations@),
            forall|i: int| 0 <= i < committed_hunks@.len() ==> all_wf((#[trigger] committed_hunks@[i]).1@),
        ensures
            files_view(final(self).attestations@) == filtered_files(old(self).attestations@, committed_hunks@),
            final(self).metadata.schema_version == old(self).metadata.schema_version,
            final(self).metadata.base_commit_sha == old(self).metadata.base_commit_sha,
            final(self).metadata.prompts@ == filter_keys(
                old(self).metadata.prompts@,
                referenced_by(final(self).attestations@),
            ),
    {
        let ghost old_atts = self.attestations@;
        let _ = committed_hunks.len();
        let mut files: Vec<FileAttestation> = Vec::new();
        let mut i: usize = 0;
        while i < self.attestations.len()
            invariant
                0 <= i <= self.attestations@.len(),
                self.attestations@ == old_atts,
                files_wf(old_atts),
                crate::str_map::distinct_keys(committed_hunks@),
                forall|q: int| 0 <= q < committed_hunks@.len() ==> all_wf((#[trigger] committed_hunks@[q]).1@),
                files_view(files@) == filtered_files(old_atts.subrange(0, i as int), committed_hunks@),
            decreases old_atts.len() - i,
        {
            let file = &self.attestations[i];
            let ghost c = committed_lines(committed_hunks@, file.file_path@);
            let empty: Vec<LineRange> = Vec::new();
            let committed: &Vec<LineRange> = match committed_hunks.get(file.file_path.as_str()) {
                Some(v) => v,
                None => &empty,
            };
            proof {
                if let Some(v) = lookup(committed_hunks@, file.file_path@) {
                    let q = choose|q: int| 0 <= q < committed_hunks@.len() && (#[trigger] committed_hunks@[q]).0 == file.file_path@;
                    assert(committed_hunks@[q].1 == v);
                } else {
                    assert(lines_of(empty@) =~= Set::<int>::empty());
                }
                assert(lines_of(committed@) == c);
                assert(all_wf(committed@));
            }
            let mut entries: Vec<AttestationEntry> = Vec::new();
            let mut j: usize = 0;
            while j < file.entries.len()
                invariant
                    0 <= j <= file.entries@.len(),
                    entries_wf(file.entries@),
                    all_wf(committed@),
                    lines_of(committed@) == c,
                    entries_view(entries@) == filtered_entries(file.entries@.subrange(0, j as int), c),
                decreases file.entries@.len() - j,
            {
                let kept = restrict_ranges(&file.entries[j].line_ranges, committed);
                assert(file.entries@.subrange(0, j + 1).drop_last() =~= file.entries@.subrange(0, j as int));
                proof {
                    if kept@.len() == 0 {
                        assert(lines_of(kept@) =~= Set::<int>::empty());
                    } else {
                        assert(kept@[0].has(kept@[0].lo()));
                        assert(lines_of(kept@).contains(kept@[0].lo()));
                    }
                }
                if kept.len() > 0 {
                    let ghost before = entries@;
                    entries.push(AttestationEntry::new(file.entries[j].hash.clone(), kept));
                    assert(entries_view(entries@) =~= entries_view(before).push(
                        (file.entries@[j as int].hash@, canonical_of(lines_of(file.entries@[j as int].line_ranges@).intersect(c))),
                    ));
                }
                j = j + 1;
            }
            assert(file.entries@.subrange(0, file.entries@.len() as int) =~= file.entries@);
            assert(old_atts.subrange(0, i + 1).drop_last() =~= old_atts.subrange(0, i as int));
            assert(old_atts.subrange(0, i + 1).last() == *file);
            if entries.len() > 0 {
                let ghost before = files@;
                files.push(FileAttestation { file_path: file.file_path.clone(), entries });
                assert(files_view(files@) =~= files_view(before).push((file.file_path@, entries_view(entries@))));
            }
            i = i + 1;
        }
        assert(old_atts.subrange(0, old_atts.len() as int) =~= old_atts);
        self.attestations = files;
        self.cleanup_unused_prompts();
    }

    /// Drops the prompt records that no attestation entry refers to.
    pub fn cleanup_unused_prompts(&mut self)
        ensures
            final(self).attestations == old(self).attestations,
            final(self).metadata.schema_version == old(self).metadata.schema_version,
            final(self).metadata.base_commit_sha == old(self).metadata.base_commit_sha,
            final(self).metadata.prompts@ == filter_keys(
                old(self).metadata.prompts@,
                referenced_by(old(self).attestations@),
            ),
            hash_covered(old(self).attestations@, old(self).metadata.prompts@) ==> hash_covered(
                final(self).attestations@,
                final(self).metadata.prompts@,
            ),
    {
        let mut referenced_hashes: Vec<String> = Vec::new();
        let mut i: usize = 0;
        while i < self.attestations.len()
            invariant
                0 <= i <= self.attestations@.len(),
                forall|k: Seq<char>|
                    #[trigger] member_of(referenced_hashes@)(k) <==> referenced(
                        self.attestations@.subrange(0, i as int),
                        k,
                    ),
            decreases self.attestations@.len() - i,
        {
            let entries = &self.attestations[i].entries;
            let mut j: usize = 0;
            let ghost start_refs = referenced_hashes@;
            while j < entries.len()
                invariant
                    0 <= j <= entries@.len(),
                    i < self.attestations@.len(),
                    entries@ == self.attestations@[i as int].entries@,
                    start_refs.len() <= referenced_hashes@.len(),
                    referenced_hashes@.subrange(0, start_refs.len() as int) == start_refs,
                    referenced_hashes@.len() == start_refs.len() + j,
                    forall|q: int|
                        0 <= q < j ==> (#[trigger] referenced_hashes@[start_refs.len() + q])@
                            == entries@[q].hash@,
                decreases entries@.len() - j,
            {
                referenced_hashes.push(entries[j].hash.clone());
                j = j + 1;
                assert(referenced_hashes@.subrange(0, start_refs.len() as int) =~= start_refs);
            }
            proof {
                let atts = self.attestations@;
                assert forall|k: Seq<char>| #[trigger]
                    member_of(referenced_hashes@)(k) <==> referenced(atts.subrange(0, i + 1), k) by {
                    let pre = atts.subrange(0, i as int);
                    let post = atts.subrange(0, i + 1);
                    if member_of(referenced_hashes@)(k) {
                        let q = choose|q: int|
                            0 <= q < referenced_hashes@.len() && (#[trigger] referenced_hashes@[q])@
                                == k;
                        if q < start_refs.len() {
                            assert(start_refs[q] == referenced_hashes@[q]);
                            assert(member_of(start_refs)(k));
                            assert(referenced(pre, k));
                            let (a, b) = choose|a: int, b: int|
                                0 <= a < pre.len() && 0 <= b < pre[a].entries@.len() && (
                                #[trigger] pre[a].entries@[b]).hash@ == k;
                            assert(post[a].entries@[b].hash@ == k);
                        } else {
                            let b = q - start_refs.len();
                            assert(referenced_hashes@[start_refs.len() + b]@ == entries@[b].hash@);
                            assert(post[i as int].entries@[b].hash@ == k);
                        }
                    }
                    if referenced(post, k) {
                        let (a, b) = choose|a: int, b: int|
                            0 <= a < post.len() && 0 <= b < post[a].entries@.len() && (
                            #[trigger] post[a].entries@[b]).hash@ == k;
                        if a < i {
                            assert(pre[a].entries@[b].hash@ == k);
                            assert(member_of(start_refs)(k));
                            let q = choose|q: int|
                                0 <= q < start_refs.len() && (#[trigger] start_refs[q])@ == k;
                            assert(referenced_hashes@[q] == start_refs[q]);
                        } else {
                            assert(referenced_hashes@[start_refs.len() + b]@ == k);
                        }
                    }
                }
            }
            i = i + 1;
        }
        assert(self.attestations@.subrange(0, self.attestations@.len() as int)
            =~= self.attestations@);
        assert(member_of(referenced_hashes@) =~= referenced_by(self.attestations@));
        let ghost before = self.metadata.prompts@;
        let _ = self.metadata.prompts.len();
        self.metadata.prompts.retain_keys(&referenced_hashes);
        proof {
            let atts = self.attestations@;
            if hash_covered(atts, before) {
                assert forall|a: int, b: int|
                    0 <= a < atts.len() && 0 <= b < atts[a].entries@.len() implies has_key(
                    self.metadata.prompts@,
                    (#[trigger] atts[a].entries@[b]).hash@,
                ) by {
                    let k = atts[a].entries@[b].hash@;
                    assert(referenced(atts, k));
                    crate::str_map::lemma_has_key_filter(before, referenced_by(atts), k);
                }
            }
        }
    }

    /// Closes the log after all checkpoints: drops empty entries and files,
    /// gives each file one entry per session sorted by hash with merged
    /// ranges, and writes each prompt record's totals and accepted lines.
    pub fn finalize(&mut self, session_additions: &StrMap<u32>, session_deletions: &StrMap<u32>)
        requires
            files_wf(old(self).attestations@),
        ensures
            final(self).attestations@.len() == kept_files(old(self).attestations@).len(),
            forall|i: int|
                0 <= i < final(self).attestations@.len() ==> {
                    let src = old(self).attestations@[kept_files(old(self).attestations@)[i]];
                    &&& (#[trigger] final(self).attestations@[i]).file_path == src.file_path
                    &&& consolidated(src.entries@, final(self).attestations@[i].entries@)
                },
            forall|i: int, j: int|
                0 <= i < final(self).attestations@.len() && 0 <= j < final(self).attestations@[i].entries@.len()
                    ==> canonical((#[trigger] final(self).attestations@[i].entries@[j]).line_ranges@),
            final(self).metadata.schema_version == old(self).metadata.schema_version,
            final(self).metadata.base_commit_sha == old(self).metadata.base_commit_sha,
            final(self).metadata.prompts@.len() == old(self).metadata.prompts@.len(),
            forall|i: int|
                0 <= i < final(self).metadata.prompts@.len() ==> {
                    let k = old(self).metadata.prompts@[i].0;
                    let was = old(self).metadata.prompts@[i].1;
                    let now = (#[trigger] final(self).metadata.prompts@[i]).1;
                    &&& final(self).metadata.prompts@[i].0 == k
                    &&& now.agent_id == was.agent_id
                    &&& now.human_author == was.human_author
                    &&& now.messages@ == was.messages@
                    &&& now.overriden_lines == was.overriden_lines
                    &&& now.total_additions == count_of(session_additions@, k)
                    &&& now.total_deletions == count_of(session_deletions@, k)
                    &&& now.accepted_lines == capped(file_lines_for(final(self).attestations@, k))
                },
            hash_covered(old(self).attestations@, old(self).metadata.prompts@) ==> hash_covered(
                final(self).attestations@,
                final(self).metadata.prompts@,
            ),
    {
        let ghost old_atts = self.attestations@;
        let ghost old_prompts = self.metadata.prompts@;
        let mut files: Vec<FileAttestation> = Vec::new();
        let mut i: usize = 0;
        while i < self.attestations.len()
            invariant
                0 <= i <= self.attestations@.len(),
                self.attestations@ == old_atts,
                files_wf(old_atts),
                files@.len() == kept_files(old_atts.subrange(0, i as int)).len(),
                files_wf(files@),
                forall|q: int, j: int|
                    0 <= q < files@.len() && 0 <= j < files@[q].entries@.len() ==> canonical(
                        (#[trigger] files@[q].entries@[j]).line_ranges@,
                    ),
                forall|q: int|
                    0 <= q < files@.len() ==> {
                        let src = old_atts[kept_files(old_atts.subrange(0, i as int))[q]];
                        &&& (#[trigger] files@[q]).file_path == src.file_path
                        &&& consolidated(src.entries@, files@[q].entries@)
                    },
                forall|q: int|
                    0 <= q < kept_files(old_atts.subrange(0, i as int)).len() ==> 0 <= #[trigger] kept_files(
                        old_atts.subrange(0, i as int),
                    )[q] < i,
            decreases old_atts.len() - i,
        {
            let ghost pre = old_atts.subrange(0, i as int);
            assert(old_atts.subrange(0, i + 1).drop_last() =~= pre);
            assert(old_atts.subrange(0, i + 1).last() == old_atts[i as int]);
            let entries = consolidate_entries(&self.attestations[i].entries);
            proof {
                let f = old_atts[i as int];
                if has_lines(f) {
                    let j = choose|j: int|
                        0 <= j < f.entries@.len() && (#[trigger] f.entries@[j]).line_ranges@.len() > 0;
                    assert(hash_present(f.entries@, f.entries@[j].hash@));
                } else {
                    if entries@.len() > 0 {
                        assert(hash_present(f.entries@, entries@[0].hash@));
                    }
                }
            }
            if entries.len() > 0 {
                files.push(FileAttestation { file_path: self.attestations[i].file_path.clone(), entries });
            }
            i = i + 1;
        }
        assert(old_atts.subrange(0, old_atts.len() as int) =~= old_atts);
        self.attestations = files;
        let n = self.metadata.prompts.len();
        let mut p: usize = 0;
        while p < n
            invariant
                0 <= p <= n,
                n == old_prompts.len(),
                files_wf(self.attestations@),
                forall|q: int, j: int|
                    0 <= q < self.attestations@.len() && 0 <= j < self.attestations@[q].entries@.len()
                        ==> canonical((#[trigger] self.attestations@[q].entries@[j]).line_ranges@),
                self.attestations@.len() == kept_files(old_atts).len(),
                forall|q: int|
                    0 <= q < self.attestations@.len() ==> {
                        let src = old_atts[kept_files(old_atts)[q]];
                        &&& (#[trigger] self.attestations@[q]).file_path == src.file_path
                        &&& consolidated(src.entries@, self.attestations@[q].entries@)
                    },
                self.metadata.prompts@.len() == n,
                self.metadata.schema_version == old(self).metadata.schema_version,
                self.metadata.base_commit_sha == old(self).metadata.base_commit_sha,
                forall|q: int|
                    0 <= q < n ==> (#[trigger] self.metadata.prompts@[q]).0 == old_prompts[q].0,
                forall|q: int|
                    p <= q < n ==> (#[trigger] self.metadata.prompts@[q]).1 == old_prompts[q].1,
                forall|q: int|
                    0 <= q < p ==> {
                        let k = old_prompts[q].0;
                        let was = old_prompts[q].1;
                        let now = (#[trigger] self.metadata.prompts@[q]).1;
                        &&& now.agent_id == was.agent_id
                        &&& now.human_author == was.human_author
                        &&& now.messages@ == was.messages@
                        &&& now.overriden_lines == was.overriden_lines
                        &&& now.total_additions == count_of(session_additions@, k)
                        &&& now.total_deletions == count_of(session_deletions@, k)
                        &&& now.accepted_lines == capped(file_lines_for(self.attestations@, k))
                    },
            decreases n - p,
        {
            let key = self.metadata.prompts.key_at(p).clone();
            let mut record = self.metadata.prompts.value_at(p).copy();
            record.total_additions = match session_additions.get(key.as_str()) {
                Some(v) => *v,
                None => 0,
            };
            record.total_deletions = match session_deletions.get(key.as_str()) {
                Some(v) => *v,
                None => 0,
            };
            let total = lines_in_files(&self.attestations, key.as_str());
            proof {
                lemma_file_lines_nonneg(self.attestations@, key@);
            }
            record.accepted_lines = if total > u32::MAX as u64 {
                u32::MAX
            } else {
                total as u32
            };
            let ghost before = self.metadata.prompts@;
            self.metadata.prompts.set_value_at(p, record);
            p = p + 1;
        }
        proof {
            if hash_covered(old_atts, old_prompts) {
                let atts = self.attestations@;
                assert forall|a: int, b: int|
                    0 <= a < atts.len() && 0 <= b < atts[a].entries@.len() implies has_key(
                    self.metadata.prompts@,
                    (#[trigger] atts[a].entries@[b]).hash@,
                ) by {
                    let k = atts[a].entries@[b].hash@;
                    let src = old_atts[kept_files(old_atts)[a]];
                    assert(consolidated(src.entries@, atts[a].entries@));
                    assert(hash_present(src.entries@, k));
                    let j = choose|j: int|
                        0 <= j < src.entries@.len() && (#[trigger] src.entries@[j]).hash@ == k
                            && src.entries@[j].line_ranges@.len() > 0;
                    lemma_kept_in_range(old_atts, a);
                    assert(old_atts[kept_files(old_atts)[a]].entries@[j] == src.entries@[j]);
                    assert(has_key(old_prompts, k));
                    let q = choose|q: int| 0 <= q < old_prompts.len() && (#[trigger] old_prompts[q]).0 == k;
                    assert(self.metadata.prompts@[q].0 == k);
                }
            }
        }
    }

    /// Folds one checkpoint into the log: registers the session of an AI
    /// checkpoint (keeping the longest transcript), adds the checkpoint's
    /// line counts to the session's counters, and replaces the entries of
    /// every file the checkpoint touches with one entry per non-human author.
    pub fn apply_checkpoint(
        &mut self,
        checkpoint: &Checkpoint,
        human_author: Option<&str>,
        session_additions: &mut StrMap<u32>,
        session_deletions: &mut StrMap<u32>,
    )
        ensures
            final(self).metadata.schema_version == old(self).metadata.schema_version,
            final(self).metadata.base_commit_sha == old(self).metadata.base_commit_sha,
            checkpoint.agent_id is None ==> final(self).metadata.prompts@ == old(self).metadata.prompts@
                && final(session_additions)@ == old(session_additions)@
                && final(session_deletions)@ == old(session_deletions)@,
            checkpoint.agent_id matches Some(agent) ==> {
                let h = short_hash_of(agent.tool@, agent.id@);
                let m = match checkpoint.transcript {
                    Some(t) => t@,
                    None => Seq::empty(),
                };
                &&& has_key(old(self).metadata.prompts@, h) ==> {
                    let i = choose|i: int|
                        0 <= i < old(self).metadata.prompts@.len()
                            && (#[trigger] old(self).metadata.prompts@[i]).0 == h;
                    let was = old(self).metadata.prompts@[i].1;
                    let now = final(self).metadata.prompts@[i].1;
                    &&& final(self).metadata.prompts@.len() == old(self).metadata.prompts@.len()
                    &&& forall|q: int|
                        0 <= q < old(self).metadata.prompts@.len() && q != i
                            ==> #[trigger] final(self).metadata.prompts@[q] == old(self).metadata.prompts@[q]
                    &&& final(self).metadata.prompts@[i].0 == h
                    &&& now.agent_id == was.agent_id && now.human_author == was.human_author
                    &&& now.messages@ == if was.messages@.len() < m.len() {
                        m
                    } else {
                        was.messages@
                    }
                    &&& now.total_additions == was.total_additions && now.total_deletions
                        == was.total_deletions && now.accepted_lines == was.accepted_lines
                        && now.overriden_lines == was.overriden_lines
                }
                &&& !has_key(old(self).metadata.prompts@, h) ==> {
                    let now = final(self).metadata.prompts@.last().1;
                    &&& final(self).metadata.prompts@.drop_last() == old(self).metadata.prompts@
                    &&& final(self).metadata.prompts@.len() == old(self).metadata.prompts@.len() + 1
                    &&& final(self).metadata.prompts@.last().0 == h
                    &&& now.agent_id == agent
                    &&& (now.human_author matches Some(x) ==> human_author matches Some(a) && x@ == a@)
                    &&& (now.human_author is None <==> human_author is None)
                    &&& now.messages@ == m
                    &&& now.total_additions == 0 && now.total_deletions == 0 && now.accepted_lines
                        == 0 && now.overriden_lines == 0
                }
                &&& lookup(final(session_additions)@, h) == Some(
                    sat_add(
                        count_of(old(session_additions)@, h),
                        kind_additions(checkpoint.line_stats, checkpoint.kind),
                    ),
                )
                &&& lookup(final(session_deletions)@, h) == Some(
                    sat_add(
                        count_of(old(session_deletions)@, h),
                        kind_deletions(checkpoint.line_stats, checkpoint.kind),
                    ),
                )
                &&& forall|k: Seq<char>|
                    k != h ==> #[trigger] lookup(final(session_additions)@, k) == lookup(
                        old(session_additions)@,
                        k,
                    ) && lookup(final(session_deletions)@, k) == lookup(old(session_deletions)@, k)
            },
            old(self).attestations@.len() <= final(self).attestations@.len(),
            distinct_paths(old(self).attestations@) ==> distinct_paths(final(self).attestations@),
            forall|i: int|
                0 <= i < old(self).attestations@.len() ==> (#[trigger] final(self).attestations@[i]).file_path
                    == old(self).attestations@[i].file_path,
            added_only_touched(old(self).attestations@.len() as int, final(self).attestations@, checkpoint.entries@),
            files_wf(old(self).attestations@) && checkpoint_valid(*checkpoint) ==> files_wf(
                final(self).attestations@,
            ),
            forall|e: int|
                #[trigger] last_for_path(checkpoint.entries@, e, checkpoint.entries@.len() as int)
                    ==> file_replaced(final(self).attestations@, checkpoint.entries@[e]),
            forall|i: int|
                0 <= i < old(self).attestations@.len() && (forall|e: int|
                    0 <= e < checkpoint.entries@.len() ==> (#[trigger] checkpoint.entries@[e]).file@
                        != old(self).attestations@[i].file_path@) ==> #[trigger] final(self).attestations@[i] == old(self).attestations@[i],
    {
        if let Some(agent) = &checkpoint.agent_id {
            let session_id = generate_short_hash(agent.id.as_str(), agent.tool.as_str());
            let _ = self.metadata.prompts.len();
            match self.metadata.prompts.find(session_id.as_str()) {
                Some(i) => {
                    if let Some(transcript) = &checkpoint.transcript {
                        let mut record = self.metadata.prompts.value_at(i).copy();
                        if record.messages.len() < transcript.len() {
                            record.messages = copy_messages(transcript);
                        }
                        let ghost before = self.metadata.prompts@;
                        self.metadata.prompts.set_value_at(i, record);
                        proof {
                            lemma_unique_index(before, i as int, session_id@);
                        }
                    } else {
                        proof {
                            lemma_unique_index(self.metadata.prompts@, i as int, session_id@);
                        }
                    }
                },
                None => {
                    let record = PromptRecord {
                        agent_id: agent.copy(),
                        human_author: match human_author {
                            Some(a) => Some(a.to_string()),
                            None => None,
                        },
                        messages: match &checkpoint.transcript {
                            Some(t) => copy_messages(t),
                            None => Vec::new(),
                        },
                        total_additions: 0,
                        total_deletions: 0,
                        accepted_lines: 0,
                        overriden_lines: 0,
                    };
                    let ghost before = self.metadata.prompts@;
                    self.metadata.prompts.insert(session_id.clone(), record);
                    assert(self.metadata.prompts@.drop_last() =~= before);
                },
            }
            bump(session_additions, &session_id, checkpoint.line_stats.additions_for_kind(checkpoint.kind));
            bump(session_deletions, &session_id, checkpoint.line_stats.deletions_for_kind(checkpoint.kind));
        }
        let ghost atts0 = self.attestations@;
        assert(atts0 == old(self).attestations@);
        let ghost m0 = self.metadata;
        let ghost sa0 = session_additions@;
        let ghost sd0 = session_deletions@;
        let mut e: usize = 0;
        while e < checkpoint.entries.len()
            invariant
                0 <= e <= checkpoint.entries@.len(),
                atts0.len() <= self.attestations@.len(),
                self.metadata == m0,
                distinct_paths(atts0) ==> distinct_paths(self.attestations@),
                forall|i: int| 0 <= i < atts0.len() ==> (#[trigger] self.attestations@[i]).file_path == atts0[i].file_path,
                forall|i: int|
                    atts0.len() <= i < self.attestations@.len() ==> exists|d: int|
                        0 <= d < e && (#[trigger] checkpoint.entries@[d]).file@
                            == (#[trigger] self.attestations@[i]).file_path@,
                files_wf(old(self).attestations@) && checkpoint_valid(*checkpoint) ==> files_wf(
                    self.attestations@,
                ),
                session_additions@ == sa0,
                session_deletions@ == sd0,
                forall|d: int|
                    #[trigger] last_for_path(checkpoint.entries@, d, e as int) ==> file_replaced(
                        self.attestations@,
                        checkpoint.entries@[d],
                    ),
                forall|i: int|
                    0 <= i < atts0.len() && (forall|d: int|
                        0 <= d < e ==> (#[trigger] checkpoint.entries@[d]).file@
                            != atts0[i].file_path@) ==> #[trigger] self.attestations@[i] == atts0[i],
            decreases checkpoint.entries@.len() - e,
        {
            let entry = &checkpoint.entries[e];
            let ghost before = self.attestations@;
            let idx = self.get_or_create_file(entry.file.as_str());
            let grouped_entries = group_by_author(&entry.line_attributions);
            let path = self.attestations[idx].file_path.clone();
            let ghost mid = self.attestations@;
            self.attestations.set(idx, FileAttestation { file_path: path, entries: grouped_entries });
            proof {
                assert forall|i: int| 0 <= i < atts0.len() implies (#[trigger] self.attestations@[i]).file_path == atts0[i].file_path by {
                    assert(mid[i].file_path == before[i].file_path);
                }
                assert forall|i: int|
                    atts0.len() <= i < self.attestations@.len() implies exists|d: int|
                        0 <= d < e + 1 && (#[trigger] checkpoint.entries@[d]).file@
                            == (#[trigger] self.attestations@[i]).file_path@ by {
                    if i < before.len() {
                        assert(self.attestations@[i].file_path == before[i].file_path);
                        let d = choose|d: int| 0 <= d < e && (#[trigger] checkpoint.entries@[d]).file@ == before[i].file_path@;
                        assert(checkpoint.entries@[d].file@ == self.attestations@[i].file_path@);
                    } else {
                        assert(i == idx);
                        assert(checkpoint.entries@[e as int].file@ == self.attestations@[i].file_path@);
                    }
                }
                if distinct_paths(atts0) {
                    assert forall|a: int, b: int| #![trigger self.attestations@[a], self.attestations@[b]]
                        0 <= a < b < self.attestations@.len() implies self.attestations@[a].file_path@ != self.attestations@[b].file_path@ by {
                        assert(self.attestations@[a].file_path == mid[a].file_path);
                        assert(self.attestations@[b].file_path == mid[b].file_path);
                        if b < before.len() {
                            assert(before[a].file_path@ != before[b].file_path@);
                        } else {
                            assert(mid[a] == before[a]);
                        }
                    }
                }
                if files_wf(old(self).attestations@) && checkpoint_valid(*checkpoint) {
                    assert(attributions_valid(entry.line_attributions@)) by {
                        assert forall|j: int| 0 <= j < entry.line_attributions@.len() implies (
                        #[trigger] entry.line_attributions@[j]).start_line
                            <= entry.line_attributions@[j].end_line by {
                            assert(checkpoint.entries@[e as int].line_attributions@[j] == entry.line_attributions@[j]);
                        }
                    }
                    lemma_grouped_wf(entry.line_attributions@);
                    assert forall|fi: int| 0 <= fi < self.attestations@.len() implies entries_wf(
                        (#[trigger] self.attestations@[fi]).entries@,
                    ) by {
                        if fi == idx {
                            let es = self.attestations@[fi].entries@;
                            assert forall|j: int| 0 <= j < es.len() implies all_wf((#[trigger] es[j]).line_ranges@) by {
                                assert(entries_view(es)[j] == (es[j].hash@, es[j].line_ranges@));
                                assert(all_wf(grouped(entry.line_attributions@)[j].1));
                            }
                        } else if fi < before.len() {
                            assert(self.attestations@[fi] == mid[fi]);
                            assert(mid[fi] == before[fi]);
                        } else {
                            assert(self.attestations@[fi] == mid[fi]);
                            assert(mid[fi].entries@.len() == 0);
                        }
                    }
                }
                assert forall|d: int|
                    #[trigger] last_for_path(checkpoint.entries@, d, e + 1) implies file_replaced(
                        self.attestations@,
                        checkpoint.entries@[d],
                    ) by {
                    if d == e {
                        assert(self.attestations@[idx as int].file_path@ == entry.file@);
                    } else {
                        assert(checkpoint.entries@[e as int].file@ != checkpoint.entries@[d].file@);
                        assert(last_for_path(checkpoint.entries@, d, e as int));
                        let i = choose|i: int|
                            0 <= i < before.len() && (#[trigger] before[i]).file_path@
                                == checkpoint.entries@[d].file@ && entries_view(before[i].entries@)
                                == grouped(checkpoint.entries@[d].line_attributions@);
                        assert(mid[i] == before[i]);
                        assert(i != idx);
                        assert(self.attestations@[i] == before[i]);
                    }
                }
                assert forall|i: int|
                    0 <= i < atts0.len() && (forall|d: int|
                        0 <= d < e + 1 ==> (#[trigger] checkpoint.entries@[d]).file@
                            != atts0[i].file_path@) implies #[trigger] self.attestations@[i] == atts0[i] by {
                    assert(checkpoint.entries@[e as int].file@ != atts0[i].file_path@);
                    assert(before[i] == atts0[i]);
                    assert(mid[i] == before[i]);
                }
            }
            e = e + 1;
        }
        assert(e == checkpoint.entries@.len());
        assert forall|i: int|
            atts0.len() <= i < self.attestations@.len() implies touched(checkpoint.entries@, #[trigger] self.attestations@[i].file_path@) by {
            let d = choose|d: int|
                0 <= d < e && (#[trigger] checkpoint.entries@[d]).file@ == self.attestations@[i].file_path@;
            assert(checkpoint.entries@[d].file@ == self.attestations@[i].file_path@);
        }
        assert(added_only_touched(atts0.len() as int, self.attestations@, checkpoint.entries@));    }

    /// The authorship log of a commit from the checkpoints of its working
    /// log: seeded with the prompt records carried in from a rewrite, each
    /// checkpoint folded in order, then finalized. Each file gets the
    /// consolidated non-human grouping of its latest entry; the prompt
    /// records are the carried-in ones and one per AI session, with each
    /// session's summed line counts. When prompts are not to be kept, the
    /// transcripts are emptied but the records stay.
    pub fn from_working_log_with_base_commit_and_human_author(
        checkpoints: &[Checkpoint],
        base_commit_sha: &str,
        human_author: Option<&str>,
        foreign_prompts: Option<&StrMap<PromptRecord>>,
        ignore_prompts: bool,
    ) -> (r: AuthorshipLog)
        requires
            forall|c: int| 0 <= c < checkpoints@.len() ==> checkpoint_valid(#[trigger] checkpoints@[c]),
        ensures
            r.metadata.base_commit_sha@ == base_commit_sha@,
            r.metadata.schema_version@ == AUTHORSHIP_LOG_VERSION@,
            distinct_paths(r.attestations@),
            forall|i: int|
                0 <= i < r.attestations@.len() ==> last_entry(
                    checkpoints@,
                    (#[trigger] r.attestations@[i]).file_path@,
                ) is Some && consolidated_view(
                    commit_entries(checkpoints@, r.attestations@[i].file_path@),
                    r.attestations@[i].entries@,
                ),
            forall|p: Seq<char>|
                (#[trigger] commit_entries(checkpoints@, p)).len() > 0 ==> exists|i: int|
                    0 <= i < r.attestations@.len() && r.attestations@[i].file_path@ == p,
            forall|i: int, j: int|
                0 <= i < r.attestations@.len() && 0 <= j < r.attestations@[i].entries@.len()
                    ==> canonical((#[trigger] r.attestations@[i].entries@[j]).line_ranges@),
            forall|i: int| 0 <= i < r.attestations@.len() ==> (#[trigger] r.attestations@[i]).entries@.len() > 0,
            forall|k: Seq<char>|
                #[trigger] has_key(r.metadata.prompts@, k) == (foreign_key(foreign_prompts, k) || ai_session(
                    checkpoints@,
                    k,
                )),
            forall|i: int|
                0 <= i < r.metadata.prompts@.len() ==> (#[trigger] r.metadata.prompts@[i]).1.total_additions
                    == additions_for(checkpoints@, r.metadata.prompts@[i].0)
                    && r.metadata.prompts@[i].1.total_deletions == deletions_for(
                    checkpoints@,
                    r.metadata.prompts@[i].0,
                ) && r.metadata.prompts@[i].1.accepted_lines == capped(
                    file_lines_for(r.attestations@, r.metadata.prompts@[i].0),
                ),
            ignore_prompts ==> forall|i: int|
                0 <= i < r.metadata.prompts@.len() ==> (#[trigger] r.metadata.prompts@[i]).1.messages@.len() == 0,
            authors_known(checkpoints@, |k: Seq<char>| foreign_key(foreign_prompts, k) || ai_session(checkpoints@, k))
                ==> hash_covered(r.attestations@, r.metadata.prompts@),
    {
        let ghost cps = checkpoints@;
        let mut log = AuthorshipLog::new();
        log.metadata.base_commit_sha = base_commit_sha.to_string();
        if let Some(prompts) = foreign_prompts {
            let n = prompts.len();
            let mut i: usize = 0;
            while i < n
                invariant
                    0 <= i <= n,
                    n == prompts@.len(),
                    log.attestations@.len() == 0,
                    log.metadata.base_commit_sha@ == base_commit_sha@,
                    log.metadata.schema_version@ == AUTHORSHIP_LOG_VERSION@,
                    forall|k: Seq<char>|
                        #[trigger] has_key(log.metadata.prompts@, k) == exists|q: int|
                            0 <= q < i && (#[trigger] prompts@[q]).0 == k,
                decreases n - i,
            {
                let ghost before = log.metadata.prompts@;
                let key = prompts.key_at(i).clone();
                let _ = log.metadata.prompts.len();
                log.metadata.prompts.insert(key, prompts.value_at(i).copy());
                proof {
                    if has_key(before, key@) {
                        let j = choose|j: int|
                            0 <= j < before.len() && before[j].0 == key@ && log.metadata.prompts@ == before.update(
                                j,
                                (key@, log.metadata.prompts@[j].1),
                            );
                        assert forall|q: int| 0 <= q < before.len() implies (#[trigger] log.metadata.prompts@[q]).0 == before[q].0 by {}
                    } else {
                        assert(log.metadata.prompts@.drop_last() == before);
                    }
                    crate::str_map::lemma_store_keys(before, log.metadata.prompts@, key@);
                    assert forall|k: Seq<char>|
                        #[trigger] has_key(log.metadata.prompts@, k) == exists|q: int|
                            0 <= q < i + 1 && (#[trigger] prompts@[q]).0 == k by {
                        if k == key@ {
                            assert(prompts@[i as int].0 == k);
                        }
                        if exists|q: int| 0 <= q < i + 1 && (#[trigger] prompts@[q]).0 == k {
                            let q = choose|q: int| 0 <= q < i + 1 && (#[trigger] prompts@[q]).0 == k;
                            if q < i {
                                assert(has_key(before, k));
                            }
                        }
                    }
                }
                i = i + 1;
            }
            proof {
                assert forall|k: Seq<char>| #[trigger] has_key(log.metadata.prompts@, k) == has_key(prompts@, k) by {
                    if has_key(prompts@, k) {
                        let q = choose|q: int| 0 <= q < prompts@.len() && (#[trigger] prompts@[q]).0 == k;
                    }
                }
            }
        }
        let mut additions: StrMap<u32> = StrMap::new();
        let mut deletions: StrMap<u32> = StrMap::new();
        assert(cps.subrange(0, 0) =~= Seq::<Checkpoint>::empty());
        proof {
            assert forall|k: Seq<char>| #[trigger] has_key(log.metadata.prompts@, k) == (foreign_key(foreign_prompts, k)
                || ai_session(cps.subrange(0, 0), k)) by {
                if foreign_prompts is None {
                    assert(!has_key(log.metadata.prompts@, k));
                }
            }
        }
        let mut c: usize = 0;
        while c < checkpoints.len()
            invariant
                0 <= c <= checkpoints@.len(),
                cps == checkpoints@,
                forall|q: int| 0 <= q < checkpoints@.len() ==> checkpoint_valid(#[trigger] checkpoints@[q]),
                files_wf(log.attestations@),
                log.metadata.base_commit_sha@ == base_commit_sha@,
                log.metadata.schema_version@ == AUTHORSHIP_LOG_VERSION@,
                distinct_paths(log.attestations@),
                forall|i: int|
                    0 <= i < log.attestations@.len() ==> last_entry(
                        cps.subrange(0, c as int),
                        (#[trigger] log.attestations@[i]).file_path@,
                    ) is Some && entries_view(log.attestations@[i].entries@) == commit_entries(
                        cps.subrange(0, c as int),
                        log.attestations@[i].file_path@,
                    ),
                forall|p: Seq<char>|
                    (#[trigger] last_entry(cps.subrange(0, c as int), p)) is Some ==> exists|i: int|
                        0 <= i < log.attestations@.len() && log.attestations@[i].file_path@ == p,
                forall|k: Seq<char>|
                    #[trigger] has_key(log.metadata.prompts@, k) == (foreign_key(foreign_prompts, k) || ai_session(
                        cps.subrange(0, c as int),
                        k,
                    )),
                forall|k: Seq<char>|
                    #[trigger] count_of(additions@, k) == additions_for(cps.subrange(0, c as int), k)
                        && count_of(deletions@, k) == deletions_for(cps.subrange(0, c as int), k),
            decreases checkpoints@.len() - c,
        {
            let ghost a0 = log.attestations@;
            let ghost p0 = log.metadata.prompts@;
            let ghost ad0 = additions@;
            let ghost de0 = deletions@;
            let cp = &checkpoints[c];
            let _ = log.metadata.prompts.len();
            let _ = additions.len();
            let _ = deletions.len();
            log.apply_checkpoint(cp, human_author, &mut additions, &mut deletions);
            let _ = log.metadata.prompts.len();
            proof {
                let atts = log.attestations@;
                let es = cp.entries@;
                assert forall|p: Seq<char>| true implies #[trigger] last_entry(cps.subrange(0, c + 1), p) == match last_in(es, p) {
                    Some(e) => Some(e),
                    None => last_entry(cps.subrange(0, c as int), p),
                } && (last_in(es, p) is Some <==> touched(es, p)) by {
                    crate::commit_model::lemma_last_entry_step(cps, c as int, p);
                    crate::commit_model::lemma_last_in(es, p);
                }
                assert forall|i: int|
                    0 <= i < atts.len() implies last_entry(cps.subrange(0, c + 1), (#[trigger] atts[i]).file_path@) is Some
                        && entries_view(atts[i].entries@) == commit_entries(cps.subrange(0, c + 1), atts[i].file_path@) by {
                    let path = atts[i].file_path@;
                    crate::commit_model::lemma_last_in(es, path);
                    if touched(es, path) {
                        let x = last_in(es, path)->Some_0;
                        let e = choose|e: int| #[trigger] last_for_path(es, e, es.len() as int) && es[e] == x && es[e].file@ == path;
                        assert(file_replaced(atts, es[e]));
                        let j = choose|j: int|
                            0 <= j < atts.len() && (#[trigger] atts[j]).file_path@ == es[e].file@ && entries_view(
                                atts[j].entries@,
                            ) == grouped(es[e].line_attributions@);
                        if j != i {
                            if j < i {
                                assert(atts[j].file_path@ != atts[i].file_path@);
                            } else {
                                assert(atts[i].file_path@ != atts[j].file_path@);
                            }
                        }
                    } else {
                        if i >= a0.len() {
                            assert(touched(es, atts[i].file_path@));
                        }
                        assert(atts[i].file_path == a0[i].file_path);
                        assert forall|d: int| 0 <= d < es.len() implies (#[trigger] es[d]).file@ != a0[i].file_path@ by {
                            if es[d].file@ == a0[i].file_path@ {
                                assert(touched(es, path));
                            }
                        }
                        assert(atts[i] == a0[i]);
                    }
                }
                assert forall|p: Seq<char>|
                    (#[trigger] last_entry(cps.subrange(0, c + 1), p)) is Some implies exists|i: int|
                        0 <= i < atts.len() && atts[i].file_path@ == p by {
                    crate::commit_model::lemma_last_in(es, p);
                    if touched(es, p) {
                        let x = last_in(es, p)->Some_0;
                        let e = choose|e: int| #[trigger] last_for_path(es, e, es.len() as int) && es[e] == x && es[e].file@ == p;
                        assert(file_replaced(atts, es[e]));
                    } else {
                        assert(last_entry(cps.subrange(0, c as int), p) is Some);
                        let i = choose|i: int| 0 <= i < a0.len() && a0[i].file_path@ == p;
                        assert(atts[i].file_path == a0[i].file_path);
                    }
                }
                let pr = log.metadata.prompts@;
                assert forall|k: Seq<char>| #[trigger] count_of(additions@, k) == additions_for(cps.subrange(0, c + 1), k)
                    && count_of(deletions@, k) == deletions_for(cps.subrange(0, c + 1), k) by {
                    crate::commit_model::lemma_last_entry_step(cps, c as int, k);
                    assert(cps[c as int] == *cp);
                    assert(count_of(ad0, k) == additions_for(cps.subrange(0, c as int), k));
                    assert(count_of(de0, k) == deletions_for(cps.subrange(0, c as int), k));
                    match &cp.agent_id {
                        None => {
                            assert(additions@ == ad0 && deletions@ == de0);
                        },
                        Some(agent) => {
                            let h = short_hash_of(agent.tool@, agent.id@);
                            if k != h {
                                assert(lookup(additions@, k) == lookup(ad0, k));
                                assert(lookup(deletions@, k) == lookup(de0, k));
                            }
                        },
                    }
                }
                assert forall|k: Seq<char>| #[trigger] has_key(pr, k) == (foreign_key(foreign_prompts, k) || ai_session(
                    cps.subrange(0, c + 1),
                    k,
                )) by {
                    crate::commit_model::lemma_last_entry_step(cps, c as int, k);
                    assert(cps[c as int] == *cp);
                    match &cp.agent_id {
                        None => {},
                        Some(agent) => {
                            let h = short_hash_of(agent.tool@, agent.id@);
                            if has_key(p0, h) {
                                let i = choose|i: int| 0 <= i < p0.len() && (#[trigger] p0[i]).0 == h;
                                assert forall|q: int| 0 <= q < p0.len() implies (#[trigger] pr[q]).0 == p0[q].0 by {
                                    if q != i {
                                        assert(pr[q] == p0[q]);
                                    }
                                }
                            }
                            crate::str_map::lemma_store_keys(p0, pr, h);
                            if k != h {
                                assert(lookup(additions@, k) == lookup(ad0, k));
                                assert(lookup(deletions@, k) == lookup(de0, k));
                            }
                        },
                    }
                }
            }
            c = c + 1;
        }
        assert(cps.subrange(0, cps.len() as int) =~= cps);
        let ghost before = log.attestations@;
        let ghost pre_prompts = log.metadata.prompts@;
        log.finalize(&additions, &deletions);
        proof {
            let atts = log.attestations@;
            assert forall|i: int| 0 <= i < atts.len() implies (#[trigger] atts[i]).entries@.len() > 0 by {
                lemma_kept_in_range(before, i);
                let src = before[kept_files(before)[i]];
                let j = choose|j: int| 0 <= j < src.entries@.len() && (#[trigger] src.entries@[j]).line_ranges@.len() > 0;
                assert(hash_present(src.entries@, src.entries@[j].hash@));
            }
            assert forall|i: int| 0 <= i < atts.len() implies last_entry(cps, (#[trigger] atts[i]).file_path@) is Some
                && consolidated_view(commit_entries(cps, atts[i].file_path@), atts[i].entries@) by {
                lemma_kept_in_range(before, i);
                let src = before[kept_files(before)[i]];
                crate::commit_model::lemma_consolidated_view(src.entries@, atts[i].entries@);
            }
            assert forall|p: Seq<char>|
                (#[trigger] commit_entries(cps, p)).len() > 0 implies exists|i: int|
                    0 <= i < atts.len() && atts[i].file_path@ == p by {
                let j = choose|j: int| 0 <= j < before.len() && before[j].file_path@ == p;
                crate::commit_model::lemma_grouped_nonempty(last_entry(cps, p)->Some_0.line_attributions@);
                assert(entries_view(before[j].entries@)[0] == (before[j].entries@[0].hash@, before[j].entries@[0].line_ranges@));
                assert(has_lines(before[j]));
                crate::commit_model::lemma_kept_has(before, j);
                let i = choose|i: int| 0 <= i < kept_files(before).len() && #[trigger] kept_files(before)[i] == j;
                assert(atts[i].file_path == before[j].file_path);
            }
            lemma_kept_distinct(before);
            assert forall|a: int, b: int| #![trigger atts[a], atts[b]] 0 <= a < b < atts.len() implies atts[a].file_path@ != atts[b].file_path@ by {
                lemma_kept_in_range(before, a);
                lemma_kept_in_range(before, b);
                let ka = kept_files(before)[a];
                let kb = kept_files(before)[b];
                assert(ka < kb);
                assert(before[ka].file_path@ != before[kb].file_path@);
            }
            crate::str_map::lemma_same_keys(log.metadata.prompts@, pre_prompts);
        }
        proof {
            let atts = log.attestations@;
            if authors_known(cps, |k: Seq<char>| foreign_key(foreign_prompts, k) || ai_session(cps, k)) {
                assert forall|a: int, b: int|
                    0 <= a < atts.len() && 0 <= b < atts[a].entries@.len() implies has_key(
                    log.metadata.prompts@,
                    (#[trigger] atts[a].entries@[b]).hash@,
                ) by {
                    let h = atts[a].entries@[b].hash@;
                    let path = atts[a].file_path@;
                    let ce = commit_entries(cps, path);
                    assert(consolidated_view(ce, atts[a].entries@));
                    assert(crate::commit_model::hash_present_v(ce, h));
                    let g = choose|g: int| 0 <= g < ce.len() && (#[trigger] ce[g]).0 == h && ce[g].1.len() > 0;
                    let x = last_entry(cps, path)->Some_0;
                    crate::commit_model::lemma_grouped_keys(x.line_attributions@, g);
                    let j = choose|j: int| 0 <= j < x.line_attributions@.len()
                        && (#[trigger] x.line_attributions@[j]).author_id@ == ce[g].0
                        && x.line_attributions@[j].author_id@ != HUMAN_AUTHOR@;
                    crate::commit_model::lemma_last_entry_from(cps, path);
                    let (c, e) = choose|c: int, e: int| 0 <= c < cps.len() && 0 <= e < cps[c].entries@.len()
                        && #[trigger] cps[c].entries@[e] == x;
                    assert(cps[c].entries@[e].line_attributions@[j] == x.line_attributions@[j]);
                }
            }
        }
        if ignore_prompts {
            let n = log.metadata.prompts.len();
            let mut i: usize = 0;
            let ghost a0 = log.attestations@;
            let ghost p0 = log.metadata.prompts@;
            while i < n
                invariant
                    0 <= i <= n,
                    n == log.metadata.prompts@.len(),
                    n == p0.len(),
                    log.attestations@ == a0,
                    log.metadata.base_commit_sha@ == base_commit_sha@,
                    log.metadata.schema_version@ == AUTHORSHIP_LOG_VERSION@,
                    forall|q: int|
                        0 <= q < n ==> (#[trigger] log.metadata.prompts@[q]).0 == p0[q].0
                            && log.metadata.prompts@[q].1.accepted_lines == p0[q].1.accepted_lines
                            && log.metadata.prompts@[q].1.total_additions == p0[q].1.total_additions
                            && log.metadata.prompts@[q].1.total_deletions == p0[q].1.total_deletions,
                    forall|q: int| 0 <= q < i ==> (#[trigger] log.metadata.prompts@[q]).1.messages@.len() == 0,
                decreases n - i,
            {
                let mut record = log.metadata.prompts.value_at(i).copy();
                record.messages = Vec::new();
                log.metadata.prompts.set_value_at(i, record);
                i = i + 1;
            }
            proof {
                crate::str_map::lemma_same_keys(log.metadata.prompts@, p0);
            }
        }
        log
    }

    /// Who wrote `line` of `file`: the latest entry of the file's
    /// attestation that holds the line and whose session has a prompt
    /// record, here or among those found in other commits' notes.
    pub fn get_line_attribution(
        &self,
        file: &str,
        line: u32,
        foreign_prompts_cache: &StrMap<Option<PromptRecord>>,
    ) -> (r: Option<(Author, Option<String>, Option<PromptRecord>)>)
        ensures
            match attribution_of(*self, file@, line as int, foreign_prompts_cache@) {
                None => r is None,
                Some((h, rec)) => r matches Some((author, Some(hash), Some(record))) && hash@ == h
                    && record.same_as(rec) && author.username == rec.agent_id.tool
                    && author.email@.len() == 0,
            },
    {
        let fi = match find_file(&self.attestations, file) {
            Some(i) => i,
            None => {
                return None;
            },
        };
        let entries = &self.attestations[fi].entries;
        let _ = self.metadata.prompts.len();
        let _ = foreign_prompts_cache.len();
        let mut k: usize = entries.len();
        while k > 0
            invariant
                k <= entries@.len(),
                distinct_keys(self.metadata.prompts@),
                distinct_keys(foreign_prompts_cache@),
                file_index(self.attestations@, file@) == Some(fi as int),
                fi < self.attestations@.len(),
                entries@ == self.attestations@[fi as int].entries@,
                attribution_in(entries@, entries@.len() as int, line as int, self.metadata.prompts@, foreign_prompts_cache@)
                    == attribution_in(entries@, k as int, line as int, self.metadata.prompts@, foreign_prompts_cache@),
            decreases k,
        {
            let entry = &entries[k - 1];
            let mut holds = false;
            let mut q: usize = 0;
            while q < entry.line_ranges.len()
                invariant
                    0 <= q <= entry.line_ranges@.len(),
                    holds == exists|t: int| 0 <= t < q && (#[trigger] entry.line_ranges@[t]).has(line as int),
                decreases entry.line_ranges@.len() - q,
            {
                if entry.line_ranges[q].contains(line) {
                    holds = true;
                }
                q = q + 1;
            }
            if holds {
                let record: Option<PromptRecord> = match self.metadata.prompts.get(entry.hash.as_str()) {
                    Some(rec) => Some(rec.copy()),
                    None => match foreign_prompts_cache.get(entry.hash.as_str()) {
                        Some(Some(rec)) => Some(rec.copy()),
                        _ => None,
                    },
                };
                proof {
                    if lookup(self.metadata.prompts@, entry.hash@) is Some {
                        assert(has_key(self.metadata.prompts@, entry.hash@));
                    }
                    assert(q == entry.line_ranges@.len());
                    assert(holds == covers(entry.line_ranges@, line as int));
                    assert(entries@[k - 1] == *entry);
                }
                if let Some(rec) = record {
                    let author = Author { username: rec.agent_id.tool.clone(), email: String::new() };
                    return Some((author, Some(entry.hash.clone()), Some(rec)));
                }
            }
            k = k - 1;
        }
        None
    }

    /// The hashes of entries whose session has no prompt record in this log.
    pub fn unknown_hashes(&self) -> (r: Vec<String>)
        ensures
            forall|i: int| 0 <= i < r@.len() ==> !has_key(self.metadata.prompts@, (#[trigger] r@[i])@)
                && referenced(self.attestations@, r@[i]@),
    {
        let mut out: Vec<String> = Vec::new();
        let mut i: usize = 0;
        while i < self.attestations.len()
            invariant
                0 <= i <= self.attestations@.len(),
                forall|q: int| 0 <= q < out@.len() ==> !has_key(self.metadata.prompts@, (#[trigger] out@[q])@)
                    && referenced(self.attestations@, out@[q]@),
            decreases self.attestations@.len() - i,
        {
            let mut j: usize = 0;
            while j < self.attestations[i].entries.len()
                invariant
                    0 <= j <= self.attestations@[i as int].entries@.len(),
                    i < self.attestations@.len(),
                    forall|q: int| 0 <= q < out@.len() ==> !has_key(self.metadata.prompts@, (#[trigger] out@[q])@)
                        && referenced(self.attestations@, out@[q]@),
                decreases self.attestations@[i as int].entries@.len() - j,
            {
                let h = &self.attestations[i].entries[j].hash;
                if !self.metadata.prompts.contains_key(h.as_str()) {
                    out.push(h.clone());
                    assert(self.attestations@[i as int].entries@[j as int].hash@ == h@);
                }
                j = j + 1;
            }
            i = i + 1;
        }
        out
    }

    /// Whether two ranges overlap or touch.
    pub fn ranges_can_merge(range1: &LineRange, range2: &LineRange) -> (r: bool)
        ensures
            r == (range1.lo() <= range2.hi() + 1 && range2.lo() <= range1.hi() + 1),
    {
        let s1 = range1.start() as u64;
        let e1 = range1.end() as u64;
        let s2 = range2.start() as u64;
        let e2 = range2.end() as u64;
        s1 <= e2 + 1 && s2 <= e1 + 1
    }

    /// The smallest range holding both.
    pub fn merge_ranges(range1: &LineRange, range2: &LineRange) -> (r: LineRange)
        requires
            range1.wf(),
            range2.wf(),
        ensures
            r == span(
                if range1.lo() <= range2.lo() {
                    range1.lo()
                } else {
                    range2.lo()
                },
                if range1.hi() >= range2.hi() {
                    range1.hi()
                } else {
                    range2.hi()
                },
            ),
    {
        let s1 = range1.start();
        let e1 = range1.end();
        let s2 = range2.start();
        let e2 = range2.end();
        let start = if s1 <= s2 {
            s1
        } else {
            s2
        };
        let end = if e1 >= e2 {
            e1
        } else {
            e2
        };
        LineRange::from_bounds(start, end)
    }

    /// Sorts by first line and joins ranges that overlap or touch: the
    /// canonical form of the lines of `ranges`.
    pub fn merge_line_ranges(ranges: &[LineRange]) -> (r: Vec<LineRange>)
        requires
            all_wf(ranges@),
        ensures
            merged(ranges@, r@),
            r@ == canonical_of(lines_of(ranges@)),
    {
        broadcast use lemma_span;

        let sorted = sort_by_start(ranges);
        let mut out: Vec<LineRange> = Vec::new();
        let mut i: usize = 0;
        while i < sorted.len()
            invariant
                0 <= i <= sorted@.len(),
                sorted_by_start(sorted@),
                all_wf(sorted@),
                canonical(out@),
                lines_of(out@) == lines_of(sorted@.subrange(0, i as int)),
                i > 0 ==> out@.len() > 0 && out@.last().lo() <= sorted@[i - 1].lo(),
                i == 0 ==> out@.len() == 0,
            decreases sorted@.len() - i,
        {
            let current = sorted[i];
            let ghost before = out@;
            let ghost prefix = sorted@.subrange(0, i as int);
            assert(sorted@.subrange(0, i + 1) =~= prefix.push(current));
            proof {
                crate::line_range::lemma_lines_push(prefix, current);
            }
            if out.len() > 0 && Self::ranges_can_merge(&out[out.len() - 1], &current) {
                let last_index = out.len() - 1;
                let last = out[last_index];
                assert(last.lo() <= current.lo()) by {
                    if i > 0 {
                        assert(sorted@[i - 1].lo() <= sorted@[i as int].lo());
                    }
                }
                let joined = Self::merge_ranges(&last, &current);
                out.set(last_index, joined);
                proof {
                    assert(joined.line_set() =~= last.line_set().union(current.line_set()));
                    crate::line_range::lemma_lines_push(before.drop_last(), last);
                    crate::line_range::lemma_lines_push(before.drop_last(), joined);
                    assert(before.drop_last().push(last) =~= before);
                    assert(before.drop_last().push(joined) =~= out@);
                    assert forall|a: int, b: int|
                        #![trigger out@[a], out@[b]]
                        0 <= a < b < out@.len() implies out@[a].hi() + 1 < out@[b].lo() by {
                        assert(before[a].hi() + 1 < before[b].lo());
                    }
                    assert(lines_of(out@) =~= lines_of(sorted@.subrange(0, i + 1)));
                }
            } else {
                out.push(current);
                proof {
                    crate::line_range::lemma_lines_push(before, current);
                    if before.len() > 0 {
                        assert(before.last().lo() <= current.lo()) by {
                            assert(sorted@[i - 1].lo() <= sorted@[i as int].lo());
                        }
                        assert(before.last().hi() + 1 < current.lo());
                    }
                    assert forall|a: int, b: int|
                        #![trigger out@[a], out@[b]]
                        0 <= a < b < out@.len() implies out@[a].hi() + 1 < out@[b].lo() by {
                        if b == before.len() && a < before.len() - 1 {
                            assert(before[a].hi() + 1 < before[before.len() - 1].lo());
                        } else if b < before.len() {
                            assert(before[a].hi() + 1 < before[b].lo());
                        }
                    }
                }
                if !current.is_canonical() {
                    let fixed = LineRange::from_bounds(current.start(), current.end());
                    let last_index = out.len() - 1;
                    out.set(last_index, fixed);
                    proof {
                        let pushed = before.push(current);
                        assert(fixed.line_set() =~= current.line_set());
                        crate::line_range::lemma_lines_push(before, fixed);
                        assert(out@ =~= before.push(fixed));
                        assert forall|a: int, b: int|
                            #![trigger out@[a], out@[b]]
                            0 <= a < b < out@.len() implies out@[a].hi() + 1 < out@[b].lo() by {
                            assert(pushed[a].hi() + 1 < pushed[b].lo());
                        }
                    }
                }
            }
            i = i + 1;
        }
        assert(sorted@.subrange(0, sorted@.len() as int) =~= sorted@);
        proof {
            lemma_canonical_of(out@);
        }
        out
    }
}

} // verus!
