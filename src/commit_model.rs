use vstd::prelude::*;

use crate::authorship_log::{
    canonical_of, entries_view, grouped, has_lines, kept_files, touched, last_for_path, kind_additions,
    kind_deletions, sat_add, AttestationEntry, FileAttestation,
};
use crate::consolidate::{consolidated, hash_lines, hash_present, str_lt};
use crate::line_range::{covers, LineRange};
use crate::short_hash::short_hash_of;
use crate::working_log::{Checkpoint, WorkingLogEntry};

verus! {

/// The last entry of `entries` for `path`.
pub open spec fn last_in(entries: Seq<WorkingLogEntry>, path: Seq<char>) -> Option<WorkingLogEntry>
    decreases entries.len(),
{
    if entries.len() == 0 {
        None
    } else if entries.last().file@ == path {
        Some(entries.last())
    } else {
        last_in(entries.drop_last(), path)
    }
}

/// The latest entry for `path` over a sequence of checkpoints.
pub open spec fn last_entry(cps: Seq<Checkpoint>, path: Seq<char>) -> Option<WorkingLogEntry>
    decreases cps.len(),
{
    if cps.len() == 0 {
        None
    } else {
        match last_in(cps.last().entries@, path) {
            Some(e) => Some(e),
            None => last_entry(cps.drop_last(), path),
        }
    }
}

/// The entries a file gets from the checkpoints before finalizing: its
/// latest line attributions grouped by non-human author.
pub open spec fn commit_entries(cps: Seq<Checkpoint>, path: Seq<char>) -> Seq<(Seq<char>, Seq<LineRange>)> {
    match last_entry(cps, path) {
        Some(e) => grouped(e.line_attributions@),
        None => Seq::empty(),
    }
}

/// The session an AI checkpoint belongs to.
pub open spec fn session_of(c: Checkpoint) -> Option<Seq<char>> {
    match c.agent_id {
        Some(a) => Some(short_hash_of(a.tool@, a.id@)),
        None => None,
    }
}

/// Whether some checkpoint belongs to session `k`.
pub open spec fn ai_session(cps: Seq<Checkpoint>, k: Seq<char>) -> bool {
    exists|c: int| 0 <= c < cps.len() && session_of(#[trigger] cps[c]) == Some(k)
}

/// The saturating sum of the added lines of session `k`'s checkpoints.
pub open spec fn additions_for(cps: Seq<Checkpoint>, k: Seq<char>) -> u32
    decreases cps.len(),
{
    if cps.len() == 0 {
        0
    } else if session_of(cps.last()) == Some(k) {
        sat_add(additions_for(cps.drop_last(), k), kind_additions(cps.last().line_stats, cps.last().kind))
    } else {
        additions_for(cps.drop_last(), k)
    }
}

/// The saturating sum of the deleted lines of session `k`'s checkpoints.
pub open spec fn deletions_for(cps: Seq<Checkpoint>, k: Seq<char>) -> u32
    decreases cps.len(),
{
    if cps.len() == 0 {
        0
    } else if session_of(cps.last()) == Some(k) {
        sat_add(deletions_for(cps.drop_last(), k), kind_deletions(cps.last().line_stats, cps.last().kind))
    } else {
        deletions_for(cps.drop_last(), k)
    }
}

pub open spec fn hash_lines_v(old: Seq<(Seq<char>, Seq<LineRange>)>, k: Seq<char>) -> Set<int> {
    Set::new(|n: int| exists|j: int| 0 <= j < old.len() && (#[trigger] old[j]).0 == k && covers(old[j].1, n))
}

pub open spec fn hash_present_v(old: Seq<(Seq<char>, Seq<LineRange>)>, k: Seq<char>) -> bool {
    exists|j: int| 0 <= j < old.len() && (#[trigger] old[j]).0 == k && old[j].1.len() > 0
}

/// `new` is the consolidated form of the entries `old` (as hashes and
/// ranges): one entry per hash with lines, sorted by hash, each with the
/// canonical ranges of all the lines of that hash.
pub open spec fn consolidated_view(old: Seq<(Seq<char>, Seq<LineRange>)>, new: Seq<AttestationEntry>) -> bool {
    &&& forall|i: int, j: int|
        #![trigger new[i], new[j]]
        0 <= i < j < new.len() ==> str_lt(new[i].hash@, new[j].hash@)
    &&& forall|i: int|
        0 <= i < new.len() ==> (#[trigger] new[i]).line_ranges@ == canonical_of(hash_lines_v(old, new[i].hash@))
    &&& forall|k: Seq<char>|
        (exists|i: int| 0 <= i < new.len() && (#[trigger] new[i]).hash@ == k) <==> hash_present_v(old, k)
}

pub proof fn lemma_consolidated_view(old: Seq<AttestationEntry>, new: Seq<AttestationEntry>)
    requires
        consolidated(old, new),
    ensures
        consolidated_view(entries_view(old), new),
{
    let v = entries_view(old);
    assert forall|k: Seq<char>| #[trigger] hash_lines(old, k) == hash_lines_v(v, k) && hash_present(old, k)
        == hash_present_v(v, k) by {
        assert forall|n: int| #[trigger] hash_lines(old, k).contains(n) == hash_lines_v(v, k).contains(n) by {
            if hash_lines(old, k).contains(n) {
                let j = choose|j: int| 0 <= j < old.len() && (#[trigger] old[j]).hash@ == k && covers(old[j].line_ranges@, n);
                assert(v[j] == (old[j].hash@, old[j].line_ranges@));
            }
            if hash_lines_v(v, k).contains(n) {
                let j = choose|j: int| 0 <= j < v.len() && (#[trigger] v[j]).0 == k && covers(v[j].1, n);
                assert(v[j] == (old[j].hash@, old[j].line_ranges@));
            }
        }
        assert(hash_lines(old, k) =~= hash_lines_v(v, k));
        if hash_present(old, k) {
            let j = choose|j: int| 0 <= j < old.len() && (#[trigger] old[j]).hash@ == k && old[j].line_ranges@.len() > 0;
            assert(v[j] == (old[j].hash@, old[j].line_ranges@));
        }
        if hash_present_v(v, k) {
            let j = choose|j: int| 0 <= j < v.len() && (#[trigger] v[j]).0 == k && v[j].1.len() > 0;
            assert(v[j] == (old[j].hash@, old[j].line_ranges@));
        }
    }
    assert forall|i: int| 0 <= i < new.len() implies (#[trigger] new[i]).line_ranges@ == canonical_of(
        hash_lines_v(v, new[i].hash@),
    ) by {
        assert(hash_lines(old, new[i].hash@) == hash_lines_v(v, new[i].hash@));
    }
    assert forall|k: Seq<char>|
        (exists|i: int| 0 <= i < new.len() && (#[trigger] new[i]).hash@ == k) <==> hash_present_v(v, k) by {
        assert(hash_present(old, k) == hash_present_v(v, k));
    }
}

pub proof fn lemma_last_in(es: Seq<WorkingLogEntry>, p: Seq<char>)
    ensures
        last_in(es, p) is Some <==> touched(es, p),
        last_in(es, p) matches Some(x) ==> exists|e: int|
            #[trigger] last_for_path(es, e, es.len() as int) && es[e] == x && es[e].file@ == p,
    decreases es.len(),
{
    if es.len() > 0 {
        let t = es.drop_last();
        lemma_last_in(t, p);
        if es.last().file@ == p {
            assert(touched(es, p)) by {
                assert(es[es.len() - 1].file@ == p);
            }
            assert(last_for_path(es, es.len() - 1, es.len() as int));
        } else {
            if touched(es, p) {
                let e = choose|e: int| 0 <= e < es.len() && (#[trigger] es[e]).file@ == p;
                assert(t[e] == es[e]);
            }
            if touched(t, p) {
                let e = choose|e: int| 0 <= e < t.len() && (#[trigger] t[e]).file@ == p;
                assert(es[e] == t[e]);
            }
            if let Some(x) = last_in(t, p) {
                let e = choose|e: int| #[trigger] last_for_path(t, e, t.len() as int) && t[e] == x && t[e].file@ == p;
                assert(es[e] == t[e]);
                assert forall|f: int| e < f < es.len() implies (#[trigger] es[f]).file@ != es[e].file@ by {
                    if f < t.len() {
                        assert(es[f] == t[f]);
                        assert(t[f].file@ != t[e].file@);
                    }
                }
                assert(last_for_path(es, e, es.len() as int));
            }
        }
    }
}

pub proof fn lemma_last_entry_step(cps: Seq<Checkpoint>, c: int, p: Seq<char>)
    requires
        0 <= c < cps.len(),
    ensures
        last_entry(cps.subrange(0, c + 1), p) == match last_in(cps[c].entries@, p) {
            Some(e) => Some(e),
            None => last_entry(cps.subrange(0, c), p),
        },
        additions_for(cps.subrange(0, c + 1), p) == if session_of(cps[c]) == Some(p) {
            sat_add(additions_for(cps.subrange(0, c), p), kind_additions(cps[c].line_stats, cps[c].kind))
        } else {
            additions_for(cps.subrange(0, c), p)
        },
        deletions_for(cps.subrange(0, c + 1), p) == if session_of(cps[c]) == Some(p) {
            sat_add(deletions_for(cps.subrange(0, c), p), kind_deletions(cps[c].line_stats, cps[c].kind))
        } else {
            deletions_for(cps.subrange(0, c), p)
        },
        ai_session(cps.subrange(0, c + 1), p) == (ai_session(cps.subrange(0, c), p) || session_of(cps[c]) == Some(p)),
{
    let a = cps.subrange(0, c + 1);
    let b = cps.subrange(0, c);
    assert(a.drop_last() =~= b);
    assert(a.last() == cps[c]);
    if ai_session(a, p) {
        let q = choose|q: int| 0 <= q < a.len() && session_of(#[trigger] a[q]) == Some(p);
        if q < c {
            assert(b[q] == a[q]);
        }
    }
    if ai_session(b, p) {
        let q = choose|q: int| 0 <= q < b.len() && session_of(#[trigger] b[q]) == Some(p);
        assert(a[q] == b[q]);
    }
    if session_of(cps[c]) == Some(p) {
        assert(session_of(a[c]) == Some(p));
    }
}

pub proof fn lemma_kept_has(fs: Seq<FileAttestation>, j: int)
    requires
        0 <= j < fs.len(),
        has_lines(fs[j]),
    ensures
        exists|i: int| 0 <= i < kept_files(fs).len() && #[trigger] kept_files(fs)[i] == j,
    decreases fs.len(),
{
    let k = kept_files(fs.drop_last());
    if j == fs.len() - 1 {
        assert(kept_files(fs)[k.len() as int] == j);
    } else {
        assert(fs.drop_last()[j] == fs[j]);
        lemma_kept_has(fs.drop_last(), j);
        let i = choose|i: int| 0 <= i < k.len() && #[trigger] k[i] == j;
        assert(kept_files(fs)[i] == j);
    }
}

/// A group of `grouped` always holds a range.
pub proof fn lemma_grouped_nonempty(las: Seq<crate::working_log::LineAttribution>)
    ensures
        forall|i: int| 0 <= i < grouped(las).len() ==> (#[trigger] grouped(las)[i]).1.len() > 0,
    decreases las.len(),
{
    if las.len() > 0 {
        lemma_grouped_nonempty(las.drop_last());
        let g = grouped(las.drop_last());
        let r = grouped(las);
        let k = las.last().author_id@;
        assert forall|i: int| 0 <= i < r.len() implies (#[trigger] r[i]).1.len() > 0 by {
            if k != crate::working_log::HUMAN_AUTHOR@ && crate::str_map::has_key(g, k) {
                let ki = crate::authorship_log::key_index(g, k);
                if i != ki {
                    assert(r[i] == g[i]);
                }
            } else if i < g.len() {
                assert(r[i] == g[i]);
            }
        }
    }
}


/// Every non-human author named by the checkpoints' line attributions
/// satisfies `known`.
pub open spec fn authors_known(cps: Seq<Checkpoint>, known: spec_fn(Seq<char>) -> bool) -> bool {
    forall|c: int, e: int, j: int|
        0 <= c < cps.len() && 0 <= e < cps[c].entries@.len() && 0 <= j < cps[c].entries@[e].line_attributions@.len()
            ==> (#[trigger] cps[c].entries@[e].line_attributions@[j]).author_id@ != crate::working_log::HUMAN_AUTHOR@
            ==> known(cps[c].entries@[e].line_attributions@[j].author_id@)
}

/// The keys of `grouped` are authors of the line attributions.
pub proof fn lemma_grouped_keys(las: Seq<crate::working_log::LineAttribution>, i: int)
    requires
        0 <= i < grouped(las).len(),
    ensures
        exists|j: int| 0 <= j < las.len() && (#[trigger] las[j]).author_id@ == grouped(las)[i].0
            && las[j].author_id@ != crate::working_log::HUMAN_AUTHOR@,
    decreases las.len(),
{
    let t = las.drop_last();
    let g = grouped(t);
    let k = las.last().author_id@;
    let r = grouped(las);
    if k != crate::working_log::HUMAN_AUTHOR@ && !crate::str_map::has_key(g, k) && i == g.len() {
        assert(las[las.len() - 1].author_id@ == r[i].0);
    } else {
        assert(r[i].0 == g[i].0) by {
            if k != crate::working_log::HUMAN_AUTHOR@ && crate::str_map::has_key(g, k) {
                let ki = crate::authorship_log::key_index(g, k);
                if i == ki {
                    assert(g[ki].0 == k);
                }
            }
        }
        lemma_grouped_keys(t, i);
        let j = choose|j: int| 0 <= j < t.len() && (#[trigger] t[j]).author_id@ == g[i].0
            && t[j].author_id@ != crate::working_log::HUMAN_AUTHOR@;
        assert(las[j] == t[j]);
    }
}

/// The latest entry for a path is an entry of some checkpoint.
pub proof fn lemma_last_entry_from(cps: Seq<Checkpoint>, p: Seq<char>)
    requires
        last_entry(cps, p) is Some,
    ensures
        exists|c: int, e: int| 0 <= c < cps.len() && 0 <= e < cps[c].entries@.len()
            && #[trigger] cps[c].entries@[e] == last_entry(cps, p)->Some_0,
    decreases cps.len(),
{
    let l = cps.last().entries@;
    lemma_last_in(l, p);
    if let Some(x) = last_in(l, p) {
        let e = choose|e: int| #[trigger] last_for_path(l, e, l.len() as int) && l[e] == x && l[e].file@ == p;
        assert(cps[cps.len() - 1].entries@[e] == x);
    } else {
        lemma_last_entry_from(cps.drop_last(), p);
        let (c, e) = choose|c: int, e: int| 0 <= c < cps.drop_last().len() && 0 <= e < cps.drop_last()[c].entries@.len()
            && #[trigger] cps.drop_last()[c].entries@[e] == last_entry(cps.drop_last(), p)->Some_0;
        assert(cps[c] == cps.drop_last()[c]);
    }
}

} // verus!
