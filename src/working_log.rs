use vstd::prelude::*;

use crate::authorship_log::{AgentId, Message, PromptRecord};
use crate::str_map::{filter_keys, StrMap};

verus! {

/// The sentinel author of human-written text.
pub const HUMAN_AUTHOR: &'static str = "human";

/// Who produced a checkpoint.
#[derive(Debug, Clone, Copy, PartialEq, Eq, Structural)]
pub enum CheckpointKind {
    Human,
    AiAgent,
    AiTab,
}

/// A run of lines and the author that owns it.
#[derive(Debug, Clone, PartialEq, Eq)]
pub struct LineAttribution {
    pub start_line: u32,
    pub end_line: u32,
    pub author_id: String,
    pub overridden: bool,
}

impl LineAttribution {
    pub fn new(start_line: u32, end_line: u32, author_id: String, overridden: bool) -> (r: Self)
        ensures
            r.start_line == start_line,
            r.end_line == end_line,
            r.author_id == author_id,
            r.overridden == overridden,
    {
        LineAttribution { start_line, end_line, author_id, overridden }
    }
}

/// A half-open byte interval of a file's content and its author.
#[derive(Debug, Clone, PartialEq, Eq)]
pub struct Attribution {
    pub start: usize,
    pub end: usize,
    pub author_id: String,
    pub ts: u128,
}

/// One touched file of a checkpoint.
#[derive(Debug, Clone, PartialEq, Eq)]
pub struct WorkingLogEntry {
    pub file: String,
    pub blob_sha: String,
    pub attributions: Vec<Attribution>,
    pub line_attributions: Vec<LineAttribution>,
}

/// Running line counts of a working log.
#[derive(Debug, Clone, Copy, PartialEq, Eq, Structural)]
pub struct CheckpointLineStats {
    pub human_additions: u32,
    pub human_deletions: u32,
    pub ai_agent_additions: u32,
    pub ai_agent_deletions: u32,
    pub ai_tab_additions: u32,
    pub ai_tab_deletions: u32,
    pub overrides: u32,
}

/// One snapshot of edits since the previous checkpoint on the same base.
#[derive(Debug, Clone, PartialEq, Eq)]
pub struct Checkpoint {
    pub kind: CheckpointKind,
    pub diff: String,
    pub author: String,
    pub entries: Vec<WorkingLogEntry>,
    pub timestamp: u64,
    pub transcript: Option<Vec<Message>>,
    pub agent_id: Option<AgentId>,
    pub line_stats: CheckpointLineStats,
    pub api_version: String,
}


/// The checkpoint format this library reads and writes.
pub const CHECKPOINT_API_VERSION: &'static str = "checkpoint/1.0.0";

/// The checkpoints of `s` whose format version is the current one, in order.
pub open spec fn compatible(s: Seq<Checkpoint>) -> Seq<Checkpoint>
    decreases s.len(),
{
    if s.len() == 0 {
        s
    } else if s.last().api_version@ == CHECKPOINT_API_VERSION@ {
        compatible(s.drop_last()).push(s.last())
    } else {
        compatible(s.drop_last())
    }
}

/// Keeps the checkpoints of the current format, in order; readers skip
/// the others.
pub fn keep_compatible(checkpoints: Vec<Checkpoint>) -> (r: Vec<Checkpoint>)
    ensures
        r@ == compatible(checkpoints@),
{
    let ghost all = checkpoints@;
    let ghost mut done: Seq<Checkpoint> = Seq::empty();
    let mut rest = checkpoints;
    let mut out: Vec<Checkpoint> = Vec::new();
    while rest.len() > 0
        invariant
            done + rest@ == all,
            out@ == compatible(done),
        decreases rest@.len(),
    {
        let ghost r0 = rest@;
        let c = rest.remove(0);
        let ok = crate::text::str_eq(c.api_version.as_str(), CHECKPOINT_API_VERSION);
        proof {
            assert(done.push(c).drop_last() =~= done);
            assert(done.push(c).last() == c);
            assert(done.push(c) + rest@ =~= done + r0);
            done = done.push(c);
        }
        if ok {
            out.push(c);
        }
    }
    assert(done =~= all);
    out
}

/// Seed attributions of a working log: line attributions per file and the
/// prompt records they refer to.
#[derive(Debug, PartialEq, Eq)]
pub struct InitialAttributions {
    pub files: StrMap<Vec<LineAttribution>>,
    pub prompts: StrMap<PromptRecord>,
}

/// Whether a file's seed attributions are non-empty.
pub open spec fn nonempty_seed(files: Seq<(Seq<char>, Vec<LineAttribution>)>) -> spec_fn(Seq<char>) -> bool {
    |k: Seq<char>| exists|i: int| 0 <= i < files.len() && (#[trigger] files[i]).0 == k && files[i].1@.len() > 0
}

/// The seed to write: files with no line attributions are dropped, and
/// nothing is written when no file is left.
pub fn initial_to_write(mut initial: InitialAttributions) -> (r: Option<InitialAttributions>)
    ensures
        ({
            let kept = filter_keys(initial.files@, nonempty_seed(initial.files@));
            match r {
                Some(w) => kept.len() > 0 && w.files@ == kept && w.prompts@ == initial.prompts@,
                None => kept.len() == 0,
            }
        }),
{
    let ghost before = initial.files@;
    let n = initial.files.len();
    let mut keep: Vec<String> = Vec::new();
    let mut i: usize = 0;
    while i < n
        invariant
            0 <= i <= n,
            n == before.len(),
            initial.files@ == before,
            crate::str_map::distinct_keys(before),
            forall|k: Seq<char>| #[trigger] crate::str_map::member_of(keep@)(k) <==> exists|q: int|
                0 <= q < i && before[q].0 == k && before[q].1@.len() > 0,
        decreases n - i,
    {
        if initial.files.value_at(i).len() > 0 {
            let ghost k0 = keep@;
            keep.push(initial.files.key_at(i).clone());
            assert(keep@.drop_last() =~= k0);
            assert(keep@[keep@.len() - 1]@ == before[i as int].0);
            proof {
                assert forall|k: Seq<char>| #[trigger] crate::str_map::member_of(keep@)(k) <==> exists|q: int|
                    0 <= q < i + 1 && before[q].0 == k && before[q].1@.len() > 0 by {
                    if crate::str_map::member_of(keep@)(k) {
                        let j = choose|j: int| 0 <= j < keep@.len() && (#[trigger] keep@[j])@ == k;
                        if j < keep@.len() - 1 {
                            assert(crate::str_map::member_of(k0)(k)) by {
                                assert(k0[j] == keep@[j]);
                            }
                        }
                    }
                    if exists|q: int| 0 <= q < i + 1 && before[q].0 == k && before[q].1@.len() > 0 {
                        let q = choose|q: int| 0 <= q < i + 1 && before[q].0 == k && before[q].1@.len() > 0;
                        if q < i {
                            assert(crate::str_map::member_of(k0)(k));
                            let j = choose|j: int| 0 <= j < k0.len() && (#[trigger] k0[j])@ == k;
                            assert(keep@[j] == k0[j]);
                        } else {
                            assert(keep@[keep@.len() - 1]@ == k);
                        }
                    }
                }
            }
        } else {
            proof {
                assert forall|k: Seq<char>| #[trigger] crate::str_map::member_of(keep@)(k) <==> exists|q: int|
                    0 <= q < i + 1 && before[q].0 == k && before[q].1@.len() > 0 by {
                    if exists|q: int| 0 <= q < i + 1 && before[q].0 == k && before[q].1@.len() > 0 {
                        let q = choose|q: int| 0 <= q < i + 1 && before[q].0 == k && before[q].1@.len() > 0;
                        assert(q != i);
                    }
                }
            }
        }
        i = i + 1;
    }
    proof {
        assert forall|k: Seq<char>| #[trigger] crate::str_map::member_of(keep@)(k) == nonempty_seed(before)(k) by {}
        assert(crate::str_map::member_of(keep@) =~= nonempty_seed(before));
    }
    initial.files.retain_keys(&keep);
    if initial.files.len() == 0 {
        None
    } else {
        Some(initial)
    }
}

} // verus!
