use vstd::prelude::*;

use crate::authorship_log::{ranges_size, sat64, size_of_ranges, AttestationEntry, AuthorshipLog};
use crate::line_range::{all_wf, canonical, lines_of, LineRange};
use crate::authorship_log::{kind_additions, kind_deletions, sat_add};
use crate::text::{chars_of, is_whitespace, is_ws};
use crate::str_map::{lookup, StrMap};
use crate::working_log::{CheckpointKind, CheckpointLineStats, LineAttribution, WorkingLogEntry};

verus! {

/// The lines that some attribution marks as overridden.
pub open spec fn overridden_set(las: Seq<LineAttribution>) -> Set<int> {
    Set::new(
        |n: int|
            exists|j: int|
                0 <= j < las.len() && (#[trigger] las[j]).overridden && las[j].start_line <= n
                    <= las[j].end_line,
    )
}

/// The overridden lines of a file's line attributions, as canonical ranges.
pub fn collect_overridden_lines(line_attributions: &[LineAttribution]) -> (r: Vec<LineRange>)
    ensures
        canonical(r@),
        lines_of(r@) == overridden_set(line_attributions@),
{
    let mut pieces: Vec<LineRange> = Vec::new();
    let mut i: usize = 0;
    while i < line_attributions.len()
        invariant
            0 <= i <= line_attributions@.len(),
            all_wf(pieces@),
            lines_of(pieces@) == overridden_set(line_attributions@.subrange(0, i as int)),
        decreases line_attributions@.len() - i,
    {
        let a = &line_attributions[i];
        let ghost pre = line_attributions@.subrange(0, i as int);
        let ghost post = line_attributions@.subrange(0, i + 1);
        assert(post =~= pre.push(*a));
        let ghost before = pieces@;
        if a.overridden && a.start_line <= a.end_line {
            let r = LineRange::from_bounds(a.start_line, a.end_line);
            pieces.push(r);
            proof {
                crate::line_range::lemma_lines_push(before, r);
            }
        }
        proof {
            assert forall|n: int| #[trigger] overridden_set(post).contains(n) == lines_of(pieces@).contains(n) by {
                if overridden_set(post).contains(n) {
                    let j = choose|j: int|
                        0 <= j < post.len() && (#[trigger] post[j]).overridden && post[j].start_line <= n
                            <= post[j].end_line;
                    if j < pre.len() {
                        assert(pre[j] == post[j]);
                        assert(overridden_set(pre).contains(n));
                    }
                }
                if overridden_set(pre).contains(n) {
                    let j = choose|j: int|
                        0 <= j < pre.len() && (#[trigger] pre[j]).overridden && pre[j].start_line <= n
                            <= pre[j].end_line;
                    assert(post[j] == pre[j]);
                }
                if a.overridden && a.start_line <= n <= a.end_line {
                    assert(post[i as int] == *a);
                }
            }
            assert(overridden_set(post) =~= lines_of(pieces@));
        }
        i = i + 1;
    }
    assert(line_attributions@.subrange(0, line_attributions@.len() as int) =~= line_attributions@);
    AuthorshipLog::merge_line_ranges(&pieces)
}

proof fn lemma_canonical_prefix(s: Seq<LineRange>)
    requires
        canonical(s),
        s.len() > 0,
    ensures
        canonical(s.drop_last()),
{
    let t = s.drop_last();
    assert forall|i: int| 0 <= i < t.len() implies (#[trigger] t[i]).wf() && t[i].canon() by {
        assert(t[i] == s[i]);
    }
    assert forall|i: int, j: int| #![trigger t[i], t[j]] 0 <= i < j < t.len() implies t[i].hi() + 1 < t[j].lo() by {
        assert(s[i].hi() + 1 < s[j].lo());
    }
}

/// A canonical list holds as many lines as its ranges' sizes add up to.
pub proof fn lemma_canonical_len(s: Seq<LineRange>)
    requires
        canonical(s),
    ensures
        lines_of(s).finite(),
        lines_of(s).len() == ranges_size(s),
    decreases s.len(),
{
    if s.len() == 0 {
        assert(lines_of(s) =~= Set::<int>::empty());
    } else {
        let t = s.drop_last();
        let x = s.last();
        lemma_canonical_prefix(s);
        lemma_canonical_len(t);
        crate::line_range::lemma_lines_push(t, x);
        assert(t.push(x) =~= s);
        assert(x.wf());
        assert(x.line_set() =~= vstd::set_lib::set_int_range(x.lo(), x.hi() + 1));
        vstd::set_lib::lemma_int_range(x.lo(), x.hi() + 1);
        assert(lines_of(t).disjoint(x.line_set())) by {
            assert forall|n: int| !(lines_of(t).contains(n) && x.line_set().contains(n)) by {
                if lines_of(t).contains(n) {
                    let q = choose|q: int| 0 <= q < t.len() && (#[trigger] t[q]).has(n);
                    assert(s[q].hi() + 1 < s[s.len() - 1].lo());
                }
            }
        }
        vstd::set_lib::lemma_set_disjoint_lens(lines_of(t), x.line_set());
        assert(lines_of(t) + x.line_set() == lines_of(t).union(x.line_set()));
    }
}

proof fn lemma_lines_bounded(s: Seq<LineRange>)
    requires
        canonical(s),
    ensures
        lines_of(s).len() <= 0x1_0000_0000,
{
    lemma_canonical_len(s);
    let all = vstd::set_lib::set_int_range(0, 0x1_0000_0000);
    vstd::set_lib::lemma_int_range(0, 0x1_0000_0000);
    assert(lines_of(s).subset_of(all)) by {
        assert forall|n: int| lines_of(s).contains(n) implies all.contains(n) by {
            let q = choose|q: int| 0 <= q < s.len() && (#[trigger] s[q]).has(n);
        }
    }
    vstd::set_lib::lemma_len_subset(lines_of(s), all);
}

/// How many lines are overridden now that were not overridden before.
pub fn count_new_overrides(current: &[LineAttribution], previous: &[LineAttribution]) -> (r: u64)
    ensures
        overridden_set(current@).difference(overridden_set(previous@)).finite(),
        r == overridden_set(current@).difference(overridden_set(previous@)).len(),
{
    let now = collect_overridden_lines(current);
    let before = collect_overridden_lines(previous);
    proof {
        assert forall|i: int| 0 <= i < now@.len() implies (#[trigger] now@[i]).wf() by {}
        assert forall|i: int| 0 <= i < before@.len() implies (#[trigger] before@[i]).wf() by {}
    }
    let mut entry = AttestationEntry::new(String::new(), now);
    entry.remove_line_ranges(&before);
    let fresh = AuthorshipLog::merge_line_ranges(&entry.line_ranges);
    proof {
        lemma_canonical_len(fresh@);
        lemma_lines_bounded(fresh@);
    }
    size_of_ranges(&fresh)
}

/// Adds newly overridden lines to the running stats, saturating; the total
/// never goes down and nothing else changes.
pub fn add_overrides(stats: &CheckpointLineStats, new_overrides: u64) -> (r: CheckpointLineStats)
    ensures
        r.overrides == if stats.overrides + new_overrides > u32::MAX {
            u32::MAX as int
        } else {
            stats.overrides + new_overrides
        },
        r.overrides >= stats.overrides,
        r.human_additions == stats.human_additions && r.human_deletions == stats.human_deletions,
        r.ai_agent_additions == stats.ai_agent_additions && r.ai_agent_deletions == stats.ai_agent_deletions,
        r.ai_tab_additions == stats.ai_tab_additions && r.ai_tab_deletions == stats.ai_tab_deletions,
{
    let total = if new_overrides > (u32::MAX - stats.overrides) as u64 {
        u32::MAX
    } else {
        stats.overrides + new_overrides as u32
    };
    CheckpointLineStats { overrides: total, ..*stats }
}

/// A line already overridden at the previous checkpoint is not counted as
/// newly overridden.
pub proof fn law_override_counted_once(
    previous: Seq<LineAttribution>,
    current: Seq<LineAttribution>,
    line: int,
)
    requires
        overridden_set(previous).contains(line),
    ensures
        !overridden_set(current).difference(overridden_set(previous)).contains(line),
{
}


/// The changes of a line diff of `old` into `new`, in order: each as its
/// kind (0 kept, 1 deleted, 2 inserted) and the line it carries.
pub uninterp spec fn line_diff_of(old: Seq<char>, new: Seq<char>) -> Seq<(u8, Seq<char>)>;

pub open spec fn change_views(cs: Seq<(u8, String)>) -> Seq<(u8, Seq<char>)> {
    cs.map_values(|c: (u8, String)| (c.0, c.1@))
}

/// Relies on similar's `TextDiff::from_lines` and `iter_all_changes`: the
/// changes of a line diff (Myers, no deadline), in order, one line each.
#[verifier::external_body]
pub(crate) fn line_diff(old: &str, new: &str) -> (r: Vec<(u8, String)>)
    ensures
        change_views(r@) == line_diff_of(old@, new@),
{
    let mut out = Vec::new();
    for c in similar::TextDiff::from_lines(old, new).iter_all_changes() {
        let kind: u8 = match c.tag() {
            similar::ChangeTag::Equal => 0,
            similar::ChangeTag::Delete => 1,
            similar::ChangeTag::Insert => 2,
        };
        out.push((kind, c.value().to_string()));
    }
    out
}

/// A line with something besides white space.
pub open spec fn has_text(l: Seq<char>) -> bool {
    exists|i: int| 0 <= i < l.len() && !is_ws(#[trigger] l[i])
}

/// How many changes of kind `kind` carry a line with text.
pub open spec fn count_kind(cs: Seq<(u8, Seq<char>)>, kind: u8) -> int
    decreases cs.len(),
{
    if cs.len() == 0 {
        0
    } else {
        count_kind(cs.drop_last(), kind) + if cs.last().0 == kind && has_text(cs.last().1) {
            1int
        } else {
            0
        }
    }
}

fn line_has_text(l: &String) -> (r: bool)
    ensures
        r == has_text(l@),
{
    let cs = chars_of(l.as_str());
    let mut i: usize = 0;
    while i < cs.len()
        invariant
            0 <= i <= cs@.len(),
            cs@ == l@,
            forall|k: int| 0 <= k < i ==> is_ws(#[trigger] cs@[k]),
        decreases cs@.len() - i,
    {
        if !is_whitespace(cs[i]) {
            return true;
        }
        i = i + 1;
    }
    false
}

/// Added and deleted lines with text among the changes, each count capped
/// at the largest `u32`.
pub fn count_line_changes(changes: &[(u8, String)]) -> (r: (u32, u32))
    ensures
        r.0 == crate::authorship_log::capped(count_kind(change_views(changes@), 2)),
        r.1 == crate::authorship_log::capped(count_kind(change_views(changes@), 1)),
{
    let ghost cv = change_views(changes@);
    let mut added: u32 = 0;
    let mut deleted: u32 = 0;
    let mut i: usize = 0;
    while i < changes.len()
        invariant
            0 <= i <= changes@.len(),
            cv == change_views(changes@),
            added == crate::authorship_log::capped(count_kind(cv.subrange(0, i as int), 2)),
            deleted == crate::authorship_log::capped(count_kind(cv.subrange(0, i as int), 1)),
            count_kind(cv.subrange(0, i as int), 2) >= 0,
            count_kind(cv.subrange(0, i as int), 1) >= 0,
        decreases changes@.len() - i,
    {
        assert(cv.subrange(0, i + 1).drop_last() =~= cv.subrange(0, i as int));
        assert(cv.subrange(0, i + 1).last() == (changes@[i as int].0, changes@[i as int].1@));
        let text = line_has_text(&changes[i].1);
        if text && changes[i].0 == 2 {
            added = added.saturating_add(1);
        }
        if text && changes[i].0 == 1 {
            deleted = deleted.saturating_add(1);
        }
        i = i + 1;
    }
    assert(cv.subrange(0, changes@.len() as int) =~= cv);
    (added, deleted)
}

/// Added and deleted lines with text between two versions of a file.
pub fn line_change_counts(old: &str, new: &str) -> (r: (u32, u32))
    ensures
        r.0 == crate::authorship_log::capped(count_kind(line_diff_of(old@, new@), 2)),
        r.1 == crate::authorship_log::capped(count_kind(line_diff_of(old@, new@), 1)),
{
    let changes = line_diff(old, new);
    count_line_changes(&changes)
}

/// Adds a checkpoint's added and deleted lines to the counters of its kind,
/// saturating; nothing else changes.
pub fn add_line_counts(stats: &CheckpointLineStats, kind: CheckpointKind, additions: u32, deletions: u32) -> (r:
    CheckpointLineStats)
    ensures
        kind_additions(r, kind) == sat_add(kind_additions(*stats, kind), additions),
        kind_deletions(r, kind) == sat_add(kind_deletions(*stats, kind), deletions),
        forall|k: CheckpointKind| k != kind ==> kind_additions(r, k) == kind_additions(*stats, k)
            && kind_deletions(r, k) == kind_deletions(*stats, k),
        r.overrides == stats.overrides,
{
    match kind {
        CheckpointKind::Human => CheckpointLineStats {
            human_additions: stats.human_additions.saturating_add(additions),
            human_deletions: stats.human_deletions.saturating_add(deletions),
            ..*stats
        },
        CheckpointKind::AiAgent => CheckpointLineStats {
            ai_agent_additions: stats.ai_agent_additions.saturating_add(additions),
            ai_agent_deletions: stats.ai_agent_deletions.saturating_add(deletions),
            ..*stats
        },
        CheckpointKind::AiTab => CheckpointLineStats {
            ai_tab_additions: stats.ai_tab_additions.saturating_add(additions),
            ai_tab_deletions: stats.ai_tab_deletions.saturating_add(deletions),
            ..*stats
        },
    }
}


/// Added (or, for kind 1, deleted) lines with text over all file versions,
/// summed with saturation.
pub open spec fn changed_lines_sum(contents: Seq<(String, String)>, kind: u8) -> u32
    decreases contents.len(),
{
    if contents.len() == 0 {
        0
    } else {
        sat_add(
            changed_lines_sum(contents.drop_last(), kind),
            crate::authorship_log::capped(count_kind(line_diff_of(contents.last().0@, contents.last().1@), kind)),
        )
    }
}

/// The overridden lines a file had at the previous checkpoint.
pub open spec fn previous_overrides(state: Seq<(Seq<char>, Vec<LineAttribution>)>, file: Seq<char>) -> Set<int> {
    match lookup(state, file) {
        Some(v) => overridden_set(v@),
        None => Set::empty(),
    }
}

/// Newly overridden lines over all entries.
pub open spec fn new_overrides_sum(entries: Seq<WorkingLogEntry>, state: Seq<(Seq<char>, Vec<LineAttribution>)>) -> int
    decreases entries.len(),
{
    if entries.len() == 0 {
        0
    } else {
        new_overrides_sum(entries.drop_last(), state) + overridden_set(entries.last().line_attributions@).difference(
            previous_overrides(state, entries.last().file@),
        ).len()
    }
}

proof fn lemma_sum_nonneg(entries: Seq<WorkingLogEntry>, state: Seq<(Seq<char>, Vec<LineAttribution>)>)
    ensures
        new_overrides_sum(entries, state) >= 0,
    decreases entries.len(),
{
    if entries.len() > 0 {
        lemma_sum_nonneg(entries.drop_last(), state);
    }
}

/// The running line stats after a checkpoint: the previous checkpoint's
/// stats (zero without one), plus the added and deleted lines with text of
/// each file version pair under the checkpoint's kind, plus the lines each
/// entry newly overrides relative to its file's previous line attributions.
pub fn compute_line_stats(
    previous: Option<&CheckpointLineStats>,
    kind: CheckpointKind,
    contents: &[(String, String)],
    entries: &[WorkingLogEntry],
    previous_state: &StrMap<Vec<LineAttribution>>,
) -> (r: CheckpointLineStats)
    ensures
        ({
            let base = match previous {
                Some(p) => *p,
                None => CheckpointLineStats {
                    human_additions: 0,
                    human_deletions: 0,
                    ai_agent_additions: 0,
                    ai_agent_deletions: 0,
                    ai_tab_additions: 0,
                    ai_tab_deletions: 0,
                    overrides: 0,
                },
            };
            &&& kind_additions(r, kind) == sat_add(kind_additions(base, kind), changed_lines_sum(contents@, 2))
            &&& kind_deletions(r, kind) == sat_add(kind_deletions(base, kind), changed_lines_sum(contents@, 1))
            &&& forall|k: CheckpointKind| k != kind ==> kind_additions(r, k) == kind_additions(base, k)
                && kind_deletions(r, k) == kind_deletions(base, k)
            &&& r.overrides == crate::authorship_log::capped(base.overrides + new_overrides_sum(entries@, previous_state@))
            &&& r.overrides >= base.overrides
        }),
{
    let base = match previous {
        Some(p) => *p,
        None => CheckpointLineStats {
            human_additions: 0,
            human_deletions: 0,
            ai_agent_additions: 0,
            ai_agent_deletions: 0,
            ai_tab_additions: 0,
            ai_tab_deletions: 0,
            overrides: 0,
        },
    };
    let mut additions: u32 = 0;
    let mut deletions: u32 = 0;
    let mut i: usize = 0;
    while i < contents.len()
        invariant
            0 <= i <= contents@.len(),
            additions == changed_lines_sum(contents@.subrange(0, i as int), 2),
            deletions == changed_lines_sum(contents@.subrange(0, i as int), 1),
        decreases contents@.len() - i,
    {
        let (a, d) = line_change_counts(contents[i].0.as_str(), contents[i].1.as_str());
        assert(contents@.subrange(0, i + 1).drop_last() =~= contents@.subrange(0, i as int));
        assert(contents@.subrange(0, i + 1).last() == contents@[i as int]);
        additions = additions.saturating_add(a);
        deletions = deletions.saturating_add(d);
        i = i + 1;
    }
    assert(contents@.subrange(0, contents@.len() as int) =~= contents@);
    let mut overrides: u64 = 0;
    let mut j: usize = 0;
    let empty: Vec<LineAttribution> = Vec::new();
    while j < entries.len()
        invariant
            0 <= j <= entries@.len(),
            empty@.len() == 0,
            overrides as int == if new_overrides_sum(entries@.subrange(0, j as int), previous_state@) > u64::MAX {
                u64::MAX as int
            } else {
                new_overrides_sum(entries@.subrange(0, j as int), previous_state@)
            },
        decreases entries@.len() - j,
    {
        let entry = &entries[j];
        let before: &Vec<LineAttribution> = match previous_state.get(entry.file.as_str()) {
            Some(v) => v,
            None => &empty,
        };
        proof {
            if lookup(previous_state@, entry.file@) is None {
                assert(overridden_set(empty@) =~= Set::<int>::empty());
            }
            lemma_sum_nonneg(entries@.subrange(0, j as int), previous_state@);
        }
        let n = count_new_overrides(entry.line_attributions.as_slice(), before.as_slice());
        assert(entries@.subrange(0, j + 1).drop_last() =~= entries@.subrange(0, j as int));
        assert(entries@.subrange(0, j + 1).last() == *entry);
        overrides = overrides.saturating_add(n);
        j = j + 1;
    }
    assert(entries@.subrange(0, entries@.len() as int) =~= entries@);
    let with_lines = add_line_counts(&base, kind, additions, deletions);
    add_overrides(&with_lines, overrides)
}


/// The state a later checkpoint of a file is read from: while walking the
/// checkpoints before position `c` and then the first entries `done` of
/// checkpoint `c`, the latest entry for `p`.
pub open spec fn latest_so_far(
    cps: Seq<crate::working_log::Checkpoint>,
    c: int,
    done: Seq<WorkingLogEntry>,
    p: Seq<char>,
) -> Option<WorkingLogEntry> {
    match crate::commit_model::last_in(done, p) {
        Some(x) => Some(x),
        None => crate::commit_model::last_entry(cps.subrange(0, c), p),
    }
}

fn copy_line_attributions(v: &Vec<LineAttribution>) -> (r: Vec<LineAttribution>)
    ensures
        r@ == v@,
{
    let mut out: Vec<LineAttribution> = Vec::new();
    let mut i: usize = 0;
    while i < v.len()
        invariant
            0 <= i <= v@.len(),
            out@ == v@.subrange(0, i as int),
        decreases v@.len() - i,
    {
        let a = &v[i];
        out.push(LineAttribution::new(a.start_line, a.end_line, a.author_id.clone(), a.overridden));
        i = i + 1;
        assert(out@ =~= v@.subrange(0, i as int));
    }
    out
}

/// Each file's latest line attributions over the previous checkpoints:
/// what `compute_line_stats` compares a new checkpoint against.
pub fn previous_file_state(checkpoints: &[crate::working_log::Checkpoint]) -> (r: StrMap<Vec<LineAttribution>>)
    ensures
        forall|p: Seq<char>|
            #[trigger] crate::str_map::has_key(r@, p) == crate::commit_model::last_entry(checkpoints@, p) is Some,
        forall|p: Seq<char>|
            #[trigger] lookup(r@, p) matches Some(v) ==> v@ == crate::commit_model::last_entry(checkpoints@, p)->Some_0.line_attributions@,
{
    let ghost cps = checkpoints@;
    let mut state: StrMap<Vec<LineAttribution>> = StrMap::new();
    let mut c: usize = 0;
    assert(cps.subrange(0, 0) =~= Seq::<crate::working_log::Checkpoint>::empty());
    while c < checkpoints.len()
        invariant
            0 <= c <= cps.len(),
            cps == checkpoints@,
            forall|p: Seq<char>|
                #[trigger] crate::str_map::has_key(state@, p) == crate::commit_model::last_entry(cps.subrange(0, c as int), p) is Some,
            forall|p: Seq<char>|
                #[trigger] lookup(state@, p) matches Some(v) ==> v@ == crate::commit_model::last_entry(
                    cps.subrange(0, c as int),
                    p,
                )->Some_0.line_attributions@,
        decreases cps.len() - c,
    {
        let entries = &checkpoints[c].entries;
        let mut e: usize = 0;
        assert(entries@.subrange(0, 0) =~= Seq::<WorkingLogEntry>::empty());
        while e < entries.len()
            invariant
                0 <= e <= entries@.len(),
                c < cps.len(),
                cps == checkpoints@,
                entries@ == cps[c as int].entries@,
                forall|p: Seq<char>|
                    #[trigger] crate::str_map::has_key(state@, p) == latest_so_far(cps, c as int, entries@.subrange(0, e as int), p) is Some,
                forall|p: Seq<char>|
                    #[trigger] lookup(state@, p) matches Some(v) ==> v@ == latest_so_far(
                        cps,
                        c as int,
                        entries@.subrange(0, e as int),
                        p,
                    )->Some_0.line_attributions@,
            decreases entries@.len() - e,
        {
            let entry = &entries[e];
            let ghost before = state@;
            let ghost pre = entries@.subrange(0, e as int);
            assert(entries@.subrange(0, e + 1).drop_last() =~= pre);
            assert(entries@.subrange(0, e + 1).last() == *entry);
            let v = copy_line_attributions(&entry.line_attributions);
            let _ = state.len();
            state.insert(entry.file.clone(), v);
            let _ = state.len();
            proof {
                assert forall|p: Seq<char>| #[trigger] crate::str_map::has_key(state@, p) == latest_so_far(
                    cps,
                    c as int,
                    entries@.subrange(0, e + 1),
                    p,
                ) is Some && (lookup(state@, p) matches Some(w) ==> w@ == latest_so_far(
                    cps,
                    c as int,
                    entries@.subrange(0, e + 1),
                    p,
                )->Some_0.line_attributions@) by {
                    if p == entry.file@ {
                        assert(lookup(state@, p) == Some(v));
                    } else {
                        if crate::str_map::has_key(before, entry.file@) {
                            let j = choose|j: int| 0 <= j < before.len() && before[j].0 == entry.file@ && state@ == before.update(j, (entry.file@, v));
                            assert forall|q: int| 0 <= q < before.len() implies (#[trigger] state@[q]).0 == before[q].0 by {}
                            assert(before[j].0 == entry.file@ && state@.len() == before.len());
                        } else {
                            assert(state@ == before.push((entry.file@, v)));
                            assert(state@.drop_last() =~= before);
                        }
                        crate::str_map::lemma_lookup_other(before, state@, entry.file@, v, p);
                        crate::str_map::lemma_store_keys(before, state@, entry.file@);
                        if crate::str_map::has_key(before, p) {
                            let q = choose|q: int| 0 <= q < before.len() && (#[trigger] before[q]).0 == p;
                            crate::str_map::lemma_lookup_at(before, q);
                        }
                        if crate::str_map::has_key(state@, p) {
                            let q = choose|q: int| 0 <= q < state@.len() && (#[trigger] state@[q]).0 == p;
                            crate::str_map::lemma_lookup_at(state@, q);
                        }
                    }
                }
            }
            e = e + 1;
        }
        proof {
            assert(entries@.subrange(0, entries@.len() as int) =~= entries@);
            assert forall|p: Seq<char>| true implies #[trigger] crate::commit_model::last_entry(cps.subrange(0, c + 1), p)
                == latest_so_far(cps, c as int, entries@, p) by {
                crate::commit_model::lemma_last_entry_step(cps, c as int, p);
            }
        }
        c = c + 1;
    }
    assert(cps.subrange(0, cps.len() as int) =~= cps);
    state
}

} // verus!
