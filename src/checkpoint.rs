use vstd::prelude::*;

use crate::authorship_log::AgentId;
use crate::short_hash::{generate_short_hash, short_hash_of};
use crate::consolidate::{compare_str, str_lt};
use crate::error::GitAiError;
use crate::short_hash::{hex_of, sha256_of};
use crate::str_map::StrMap;
use crate::line_attribution::{attributions_to_line_attributions, line_attr_view, line_owner, line_spans, owner_runs};
use crate::line_stats::line_diff_of;
use crate::tracker::{
    attr_views, attribute_unattributed_ranges, blen, coalesce, filled, track, update_attributions,
};
use crate::working_log::{Attribution, CheckpointKind, LineAttribution, WorkingLogEntry, HUMAN_AUTHOR};

verus! {

impl CheckpointKind {
    pub open spec fn name(self) -> Seq<char> {
        match self {
            CheckpointKind::Human => "human"@,
            CheckpointKind::AiAgent => "ai_agent"@,
            CheckpointKind::AiTab => "ai_tab"@,
        }
    }

    pub fn to_str(&self) -> (r: String)
        ensures
            r@ == self.name(),
    {
        match self {
            CheckpointKind::Human => "human".to_string(),
            CheckpointKind::AiAgent => "ai_agent".to_string(),
            CheckpointKind::AiTab => "ai_tab".to_string(),
        }
    }
}

/// The author that a checkpoint writes new text as: the session's short
/// hash for an AI checkpoint with a known agent, else the kind's name.
pub open spec fn author_of(kind: CheckpointKind, agent: Option<AgentId>) -> Seq<char> {
    if kind != CheckpointKind::Human && agent is Some {
        short_hash_of(agent->Some_0.tool@, agent->Some_0.id@)
    } else {
        kind.name()
    }
}

pub fn checkpoint_author_id(kind: CheckpointKind, agent: Option<&AgentId>) -> (r: String)
    ensures
        r@ == author_of(
            kind,
            match agent {
                Some(a) => Some(*a),
                None => None,
            },
        ),
{
    match agent {
        Some(a) if kind != CheckpointKind::Human => generate_short_hash(a.id.as_str(), a.tool.as_str()),
        _ => kind.to_str(),
    }
}

/// A file gets no entry when its content is unchanged and no seed
/// attributions name it.
pub fn skips_file(previous_content: &str, current_content: &str, has_initial: bool) -> (r: bool)
    ensures
        r == (previous_content@ == current_content@ && !has_initial),
{
    crate::text::str_eq(previous_content, current_content) && !has_initial
}

/// Whether a seed attribution holds line `n`.
pub open spec fn seeded(initial: Seq<LineAttribution>, n: int) -> bool {
    exists|j: int| 0 <= j < initial.len() && (#[trigger] initial[j]).start_line <= n <= initial[j].end_line
}

/// Whether the blame reported line `n`.
pub open spec fn blamed(blame: Seq<(u32, Seq<char>)>, n: int) -> bool {
    exists|j: int| 0 <= j < blame.len() && (#[trigger] blame[j]).0 == n
}

pub open spec fn one_line(n: int, author: Seq<char>) -> (u32, u32, Seq<char>) {
    (n as u32, n as u32, author)
}

/// The blamed lines that the seed does not cover, each as a one-line
/// attribution: sessions keep their hash; human lines go to the current
/// author in an AI checkpoint and are left out in a human one.
pub open spec fn from_blame(
    kind: CheckpointKind,
    author: Seq<char>,
    initial: Seq<LineAttribution>,
    blame: Seq<(u32, Seq<char>)>,
) -> Seq<(u32, u32, Seq<char>)>
    decreases blame.len(),
{
    if blame.len() == 0 {
        Seq::empty()
    } else {
        let rest = from_blame(kind, author, initial, blame.drop_last());
        let (line, who) = blame.last();
        if seeded(initial, line as int) {
            rest
        } else if who == HUMAN_AUTHOR@ {
            if kind != CheckpointKind::Human {
                rest.push(one_line(line as int, author))
            } else {
                rest
            }
        } else {
            rest.push(one_line(line as int, who))
        }
    }
}

/// In an AI checkpoint, the lines `1..=upto` that neither the seed nor the
/// blame covers, each given to the current author.
pub open spec fn unclaimed(
    author: Seq<char>,
    initial: Seq<LineAttribution>,
    blame: Seq<(u32, Seq<char>)>,
    upto: int,
) -> Seq<(u32, u32, Seq<char>)>
    decreases upto,
{
    if upto <= 0 {
        Seq::empty()
    } else {
        let rest = unclaimed(author, initial, blame, upto - 1);
        if !seeded(initial, upto) && !blamed(blame, upto) {
            rest.push(one_line(upto, author))
        } else {
            rest
        }
    }
}

/// A line attribution as its lines and author (the flag left out).
pub open spec fn attribution_view(a: LineAttribution) -> (u32, u32, Seq<char>) {
    (a.start_line, a.end_line, a.author_id@)
}

pub open spec fn blame_view(blame: Seq<(u32, String)>) -> Seq<(u32, Seq<char>)> {
    blame.map_values(|b: (u32, String)| (b.0, b.1@))
}

fn is_seeded(initial: &[LineAttribution], n: u32) -> (r: bool)
    ensures
        r == seeded(initial@, n as int),
{
    let mut j: usize = 0;
    while j < initial.len()
        invariant
            0 <= j <= initial@.len(),
            forall|q: int| 0 <= q < j ==> !((#[trigger] initial@[q]).start_line <= n <= initial@[q].end_line),
        decreases initial@.len() - j,
    {
        if initial[j].start_line <= n && n <= initial[j].end_line {
            return true;
        }
        j = j + 1;
    }
    false
}

fn is_blamed(blame: &[(u32, String)], n: u32) -> (r: bool)
    ensures
        r == blamed(blame_view(blame@), n as int),
{
    let ghost bv = blame_view(blame@);
    let mut j: usize = 0;
    while j < blame.len()
        invariant
            0 <= j <= blame@.len(),
            bv == blame_view(blame@),
            forall|q: int| 0 <= q < j ==> (#[trigger] bv[q]).0 != n,
        decreases blame@.len() - j,
    {
        if blame[j].0 == n {
            assert(bv[j as int].0 == n);
            return true;
        }
        j = j + 1;
    }
    false
}

/// The line attributions a file starts a checkpoint from: the seed's
/// first, then the blamed lines the seed does not cover, then, in an AI
/// checkpoint, every other line of the current content (`total_lines` of
/// them) given to the current author.
pub fn prior_line_attributions(
    kind: CheckpointKind,
    author_id: &str,
    initial: &[LineAttribution],
    blame: &[(u32, String)],
    total_lines: u32,
) -> (r: Vec<LineAttribution>)
    ensures
        r@.map_values(|a: LineAttribution| attribution_view(a)) == initial@.map_values(
            |a: LineAttribution| attribution_view(a),
        ) + from_blame(kind, author_id@, initial@, blame_view(blame@)) + if kind
            != CheckpointKind::Human {
            unclaimed(author_id@, initial@, blame_view(blame@), total_lines as int)
        } else {
            Seq::empty()
        },
        forall|i: int| initial@.len() <= i < r@.len() ==> !(#[trigger] r@[i]).overridden,
{
    proof {
        reveal_strlit("human");
    }
    let ghost bv = blame_view(blame@);
    let ghost iv = initial@.map_values(|a: LineAttribution| attribution_view(a));
    let mut out: Vec<LineAttribution> = Vec::new();
    let mut i: usize = 0;
    while i < initial.len()
        invariant
            0 <= i <= initial@.len(),
            out@.len() == i,
            forall|k: int| 0 <= k < i ==> attribution_view(#[trigger] out@[k]) == attribution_view(initial@[k]),
        decreases initial@.len() - i,
    {
        let a = &initial[i];
        out.push(LineAttribution::new(a.start_line, a.end_line, a.author_id.clone(), a.overridden));
        i = i + 1;
    }
    assert(out@.map_values(|a: LineAttribution| attribution_view(a)) =~= iv);
    let mut b: usize = 0;
    while b < blame.len()
        invariant
            0 <= b <= blame@.len(),
            bv == blame_view(blame@),
            HUMAN_AUTHOR@ == "human"@,
            out@.len() >= initial@.len(),
            forall|q: int| initial@.len() <= q < out@.len() ==> !(#[trigger] out@[q]).overridden,
            out@.map_values(|a: LineAttribution| attribution_view(a)) == iv + from_blame(
                kind,
                author_id@,
                initial@,
                bv.subrange(0, b as int),
            ),
        decreases blame@.len() - b,
    {
        let (line, who) = (blame[b].0, &blame[b].1);
        let ghost before = out@.map_values(|a: LineAttribution| attribution_view(a));
        assert(bv.subrange(0, b + 1).drop_last() =~= bv.subrange(0, b as int));
        assert(bv.subrange(0, b + 1).last() == (line, who@));
        if is_seeded(initial, line) {
        } else if crate::text::str_eq(who.as_str(), HUMAN_AUTHOR) {
            if kind != CheckpointKind::Human {
                out.push(LineAttribution::new(line, line, author_id.to_string(), false));
                assert(out@.map_values(|a: LineAttribution| attribution_view(a)) =~= before.push(
                    one_line(line as int, author_id@),
                ));
            }
        } else {
            out.push(LineAttribution::new(line, line, who.clone(), false));
            assert(out@.map_values(|a: LineAttribution| attribution_view(a)) =~= before.push(
                one_line(line as int, who@),
            ));
        }
        b = b + 1;
    }
    assert(bv.subrange(0, blame@.len() as int) =~= bv);
    if kind != CheckpointKind::Human {
        let ghost head = out@.map_values(|a: LineAttribution| attribution_view(a));
        let mut n: u32 = 0;
        while n < total_lines
            invariant
                0 <= n <= total_lines,
                bv == blame_view(blame@),
                out@.len() >= initial@.len(),
                forall|q: int| initial@.len() <= q < out@.len() ==> !(#[trigger] out@[q]).overridden,
                out@.map_values(|a: LineAttribution| attribution_view(a)) == head + unclaimed(
                    author_id@,
                    initial@,
                    bv,
                    n as int,
                ),
            decreases total_lines - n,
        {
            n = n + 1;
            let ghost before = out@.map_values(|a: LineAttribution| attribution_view(a));
            if !is_seeded(initial, n) && !is_blamed(blame, n) {
                out.push(LineAttribution::new(n, n, author_id.to_string(), false));
                assert(out@.map_values(|a: LineAttribution| attribution_view(a)) =~= before.push(
                    one_line(n as int, author_id@),
                ));
            }
        }
    } else {
        assert(out@.map_values(|a: LineAttribution| attribution_view(a)) =~= out@.map_values(
            |a: LineAttribution| attribution_view(a),
        ) + Seq::<(u32, u32, Seq<char>)>::empty());
    }
    out
}


/// The attributions a checkpoint records for a file: the previous
/// attributions with their gaps given to the human author just before
/// `ts`, carried through the edit with new text going to `author_id`.
pub open spec fn entry_attributions(
    previous_content: Seq<char>,
    previous_attributions: Seq<Attribution>,
    content: Seq<char>,
    author_id: Seq<char>,
    ts: u128,
) -> (bool, Seq<(int, int, Seq<char>, u128)>) {
    let prior = filled(attr_views(previous_attributions), blen(previous_content), HUMAN_AUTHOR@, (ts - 1) as u128);
    let t = track(line_diff_of(previous_content, content), prior, author_id, ts);
    (t.0 == blen(previous_content) && t.1 == blen(content), coalesce(t.2))
}

/// The working-log entry of one file after an edit: its attributions as
/// `entry_attributions` gives them, and its line attributions derived from
/// them. Fails when the line diff does not account for the texts.
pub fn make_entry_for_file(
    file_path: &str,
    blob_sha: &str,
    author_id: &str,
    previous_content: &str,
    previous_attributions: &Vec<Attribution>,
    content: &str,
    ts: u128,
) -> (r: Result<WorkingLogEntry, GitAiError>)
    requires
        ts >= 1,
        line_spans(vstd::utf8::encode_utf8(content@)).len() <= u32::MAX,
    ensures
        ({
            let (ok, attrs) = entry_attributions(previous_content@, previous_attributions@, content@, author_id@, ts);
            match r {
                Ok(e) => ok && e.file@ == file_path@ && e.blob_sha@ == blob_sha@ && attr_views(e.attributions@)
                    == attrs && e.line_attributions@.map_values(|l: LineAttribution| line_attr_view(l))
                    == owner_runs(
                    Seq::new(
                        line_spans(vstd::utf8::encode_utf8(content@)).len(),
                        |k: int| line_owner(attrs, line_spans(vstd::utf8::encode_utf8(content@))[k]),
                    ),
                ),
                Err(_) => !ok,
            }
        }),
{
    let filled_in = attribute_unattributed_ranges(previous_content, previous_attributions.as_slice(), HUMAN_AUTHOR, ts - 1);
    let new_attributions = update_attributions(previous_content, content, filled_in.as_slice(), author_id, ts)?;
    let line_attributions = attributions_to_line_attributions(new_attributions.as_slice(), content);
    Ok(WorkingLogEntry {
        file: file_path.to_string(),
        blob_sha: blob_sha.to_string(),
        attributions: new_attributions,
        line_attributions,
    })
}


/// How a checkpoint run proceeds.
#[derive(Debug, Clone, Copy, PartialEq, Eq, Structural)]
pub struct CheckpointPlan {
    /// Clear the working log first instead of reading its checkpoints.
    pub reset_log: bool,
    /// Compute entries against the base commit (first checkpoint) rather
    /// than against the latest checkpoint's blobs.
    pub initial_entries: bool,
    /// Record the agent identity and transcript.
    pub with_agent: bool,
}

pub fn checkpoint_plan(kind: CheckpointKind, reset: bool, previous_count: usize) -> (r: CheckpointPlan)
    ensures
        r.reset_log == reset,
        r.initial_entries == (reset || previous_count == 0),
        r.with_agent == (kind != CheckpointKind::Human),
{
    CheckpointPlan { reset_log: reset, initial_entries: reset || previous_count == 0, with_agent: kind != CheckpointKind::Human }
}

/// The checkpoint to append, or none when no file changed. The agent and
/// transcript are kept for AI checkpoints only.
pub fn assemble_checkpoint(
    kind: CheckpointKind,
    combined_hash: String,
    author: String,
    entries: Vec<crate::working_log::WorkingLogEntry>,
    agent_id: Option<AgentId>,
    transcript: Option<Vec<crate::authorship_log::Message>>,
    line_stats: crate::working_log::CheckpointLineStats,
    timestamp: u64,
) -> (r: Option<crate::working_log::Checkpoint>)
    ensures
        entries@.len() == 0 <==> r is None,
        r matches Some(c) ==> c.kind == kind && c.diff == combined_hash && c.author == author && c.entries@ == entries@
            && c.line_stats == line_stats && c.timestamp == timestamp && c.api_version@
            == crate::working_log::CHECKPOINT_API_VERSION@ && (kind == CheckpointKind::Human ==> c.agent_id is None
            && c.transcript is None) && (kind != CheckpointKind::Human ==> c.agent_id == agent_id && c.transcript
            == transcript),
{
    if entries.len() == 0 {
        return None;
    }
    let human = match kind {
        CheckpointKind::Human => true,
        _ => false,
    };
    Some(crate::working_log::Checkpoint {
        kind,
        diff: combined_hash,
        author,
        entries,
        timestamp,
        transcript: if human { None } else { transcript },
        agent_id: if human { None } else { agent_id },
        line_stats,
        api_version: crate::working_log::CHECKPOINT_API_VERSION.to_string(),
    })
}

/// Ordered by path, each path once.
pub open spec fn sorted_paths(s: Seq<(Seq<char>, Seq<char>)>) -> bool {
    forall|i: int, j: int| #![trigger s[i], s[j]] 0 <= i < j < s.len() ==> str_lt(s[i].0, s[j].0)
}

/// The bytes hashed for a checkpoint: each path followed by its content hash.
pub open spec fn pair_bytes(s: Seq<(Seq<char>, Seq<char>)>) -> Seq<u8>
    decreases s.len(),
{
    if s.len() == 0 {
        Seq::empty()
    } else {
        pair_bytes(s.drop_last()) + vstd::utf8::encode_utf8(s.last().0) + vstd::utf8::encode_utf8(s.last().1)
    }
}

pub open spec fn pair_views(m: Seq<(Seq<char>, String)>) -> Seq<(Seq<char>, Seq<char>)> {
    m.map_values(|e: (Seq<char>, String)| (e.0, e.1@))
}

/// The hex SHA-256 over the `(path, content hash)` pairs in path order:
/// the checkpoint's combined content hash.
pub fn combined_content_hash(file_hashes: &StrMap<String>) -> (r: String)
    ensures
        exists|sorted: Seq<(Seq<char>, Seq<char>)>|
            sorted_paths(sorted) && sorted.to_multiset() == pair_views(file_hashes@).to_multiset() && r@ == hex_of(
                sha256_of(pair_bytes(sorted)),
            ),
{
    broadcast use vstd::seq_lib::group_to_multiset_ensures;

    let n = file_hashes.len();
    let ghost all = pair_views(file_hashes@);
    let mut order: Vec<(String, String)> = Vec::new();
    let mut i: usize = 0;
    while i < n
        invariant
            0 <= i <= n,
            n == file_hashes@.len(),
            all == pair_views(file_hashes@),
            crate::str_map::distinct_keys(file_hashes@),
            sorted_paths(order@.map_values(|e: (String, String)| (e.0@, e.1@))),
            order@.map_values(|e: (String, String)| (e.0@, e.1@)).to_multiset() == all.subrange(0, i as int).to_multiset(),
            forall|q: int| 0 <= q < order@.len() ==> exists|j: int| 0 <= j < i && (#[trigger] all[j]).0 == (#[trigger] order@[q]).0@,
        decreases n - i,
    {
        let key = file_hashes.key_at(i);
        let val = file_hashes.value_at(i);
        let ghost ov = order@.map_values(|e: (String, String)| (e.0@, e.1@));
        let mut p: usize = 0;
        while p < order.len() && compare_str(order[p].0.as_str(), key.as_str()) < 0
            invariant
                0 <= p <= order@.len(),
                forall|q: int| 0 <= q < p ==> str_lt((#[trigger] order@[q]).0@, key@),
            decreases order@.len() - p,
        {
            p = p + 1;
        }
        proof {
            assert(all[i as int] == (key@, val@));
            if p < order@.len() {
                let j = choose|j: int| 0 <= j < i && (#[trigger] all[j]).0 == (#[trigger] order@[p as int]).0@;
                assert(file_hashes@[j].0 != file_hashes@[i as int].0);
                crate::consolidate::lemma_str_lt_total(order@[p as int].0@, key@);
            }
        }
        order.insert(p, (key.clone(), val.clone()));
        proof {
            let nv = order@.map_values(|e: (String, String)| (e.0@, e.1@));
            assert(nv =~= ov.insert(p as int, (key@, val@)));
            assert(all.subrange(0, i + 1) =~= all.subrange(0, i as int).push((key@, val@)));
            vstd::seq_lib::to_multiset_insert(ov, p as int, (key@, val@));
            vstd::seq_lib::to_multiset_build(all.subrange(0, i as int), (key@, val@));
            assert forall|a: int, b: int| #![trigger nv[a], nv[b]] 0 <= a < b < nv.len() implies str_lt(nv[a].0, nv[b].0) by {
                if a < p && b < p {
                    assert(str_lt(ov[a].0, ov[b].0));
                } else if a < p && b == p {
                    assert(nv[a] == ov[a]);
                } else if a < p {
                    assert(str_lt(ov[a].0, ov[b - 1].0));
                } else if a == p {
                    if b - 1 > p {
                        assert(str_lt(ov[p as int].0, ov[b - 1].0));
                        crate::consolidate::lemma_str_lt_trans(key@, ov[p as int].0, ov[b - 1].0);
                    }
                } else {
                    assert(str_lt(ov[a - 1].0, ov[b - 1].0));
                }
            }
            assert forall|q: int| 0 <= q < order@.len() implies exists|j: int| 0 <= j < i + 1 && (#[trigger] all[j]).0 == (#[trigger] order@[q]).0@ by {
                if q < p {
                    let j = choose|j: int| 0 <= j < i && (#[trigger] all[j]).0 == (#[trigger] ov[q]).0;
                    assert(ov[q].0 == order@[q].0@);
                } else if q == p {
                    assert(all[i as int].0 == order@[q].0@);
                } else {
                    assert(ov[q - 1].0 == order@[q].0@);
                    let j = choose|j: int| 0 <= j < i && (#[trigger] all[j]).0 == (#[trigger] ov[q - 1]).0;
                }
            }
        }
        i = i + 1;
    }
    assert(all.subrange(0, n as int) =~= all);
    let ghost sorted = order@.map_values(|e: (String, String)| (e.0@, e.1@));
    let mut bytes: Vec<u8> = Vec::new();
    let mut k: usize = 0;
    while k < order.len()
        invariant
            0 <= k <= order@.len(),
            sorted == order@.map_values(|e: (String, String)| (e.0@, e.1@)),
            bytes@ == pair_bytes(sorted.subrange(0, k as int)),
        decreases order@.len() - k,
    {
        let pb = order[k].0.as_str().as_bytes();
        let hb = order[k].1.as_str().as_bytes();
        let ghost before = bytes@;
        let mut q: usize = 0;
        while q < pb.len()
            invariant
                0 <= q <= pb@.len(),
                bytes@ == before + pb@.subrange(0, q as int),
            decreases pb@.len() - q,
        {
            bytes.push(pb[q]);
            q = q + 1;
            assert(bytes@ =~= before + pb@.subrange(0, q as int));
        }
        let ghost mid = bytes@;
        let mut q2: usize = 0;
        while q2 < hb.len()
            invariant
                0 <= q2 <= hb@.len(),
                bytes@ == mid + hb@.subrange(0, q2 as int),
            decreases hb@.len() - q2,
        {
            bytes.push(hb[q2]);
            q2 = q2 + 1;
            assert(bytes@ =~= mid + hb@.subrange(0, q2 as int));
        }
        proof {
            assert(pb@.subrange(0, pb@.len() as int) =~= pb@);
            assert(hb@.subrange(0, hb@.len() as int) =~= hb@);
            assert(sorted.subrange(0, k + 1).drop_last() =~= sorted.subrange(0, k as int));
            assert(sorted.subrange(0, k + 1).last() == sorted[k as int]);
            assert(bytes@ =~= pair_bytes(sorted.subrange(0, k + 1)));
        }
        k = k + 1;
    }
    assert(sorted.subrange(0, order@.len() as int) =~= sorted);
    let digest = crate::short_hash::sha256_digest(bytes.as_slice());
    let mut hex: Vec<char> = Vec::new();
    let mut d: usize = 0;
    while d < digest.len()
        invariant
            0 <= d <= digest@.len(),
            hex@ == hex_of(digest@.subrange(0, d as int)),
        decreases digest@.len() - d,
    {
        let b = digest[d];
        hex.push(crate::short_hash::hex_char(b / 16));
        hex.push(crate::short_hash::hex_char(b % 16));
        assert(digest@.subrange(0, d + 1).drop_last() =~= digest@.subrange(0, d as int));
        d = d + 1;
    }
    assert(digest@.subrange(0, digest@.len() as int) =~= digest@);
    crate::text::string_of(&hex)
}

} // verus!
