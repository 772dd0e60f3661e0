use vstd::prelude::*;

use crate::authorship_log::{
    capped, entry_lines_for, file_lines_for, files_wf, hash_covered, ranges_size, AttestationEntry,
    FileAttestation, PromptRecord,
};
use crate::consolidate::entries_wf;
use crate::str_map::{distinct_keys, has_key};

verus! {

/// All the lines held by the entries.
pub open spec fn entries_total(es: Seq<AttestationEntry>) -> int
    decreases es.len(),
{
    if es.len() == 0 {
        0
    } else {
        entries_total(es.drop_last()) + ranges_size(es.last().line_ranges@)
    }
}

/// All the AI-attributed lines of the attestations.
pub open spec fn files_total(fs: Seq<FileAttestation>) -> int
    decreases fs.len(),
{
    if fs.len() == 0 {
        0
    } else {
        files_total(fs.drop_last()) + entries_total(fs.last().entries@)
    }
}

/// The sum of the accepted lines of the prompt records.
pub open spec fn accepted_sum(ps: Seq<(Seq<char>, PromptRecord)>) -> int
    decreases ps.len(),
{
    if ps.len() == 0 {
        0
    } else {
        accepted_sum(ps.drop_last()) + ps.last().1.accepted_lines
    }
}

/// `f` summed over the keys.
pub open spec fn sum_over(keys: Seq<Seq<char>>, f: spec_fn(Seq<char>) -> int) -> int
    decreases keys.len(),
{
    if keys.len() == 0 {
        0
    } else {
        sum_over(keys.drop_last(), f) + f(keys.last())
    }
}

pub open spec fn keys_of(ps: Seq<(Seq<char>, PromptRecord)>) -> Seq<Seq<char>> {
    ps.map_values(|p: (Seq<char>, PromptRecord)| p.0)
}

proof fn lemma_sum_add(keys: Seq<Seq<char>>, f: spec_fn(Seq<char>) -> int, g: spec_fn(Seq<char>) -> int)
    ensures
        sum_over(keys, |k: Seq<char>| f(k) + g(k)) == sum_over(keys, f) + sum_over(keys, g),
    decreases keys.len(),
{
    if keys.len() > 0 {
        lemma_sum_add(keys.drop_last(), f, g);
    }
}

proof fn lemma_sum_ext(keys: Seq<Seq<char>>, f: spec_fn(Seq<char>) -> int, g: spec_fn(Seq<char>) -> int)
    requires
        forall|k: Seq<char>| #[trigger] f(k) == g(k),
    ensures
        sum_over(keys, f) == sum_over(keys, g),
    decreases keys.len(),
{
    if keys.len() > 0 {
        lemma_sum_ext(keys.drop_last(), f, g);
    }
}

proof fn lemma_sum_indicator(keys: Seq<Seq<char>>, h: Seq<char>, x: int, f: spec_fn(Seq<char>) -> int)
    requires
        forall|i: int, j: int| #![trigger keys[i], keys[j]] 0 <= i < j < keys.len() ==> keys[i] != keys[j],
        forall|k: Seq<char>| #[trigger] f(k) == if k == h {
            x
        } else {
            0
        },
    ensures
        sum_over(keys, f) == if keys.contains(h) {
            x
        } else {
            0
        },
    decreases keys.len(),
{
    if keys.len() > 0 {
        let t = keys.drop_last();
        assert forall|i: int, j: int| #![trigger t[i], t[j]] 0 <= i < j < t.len() implies t[i] != t[j] by {
            assert(keys[i] != keys[j]);
        }
        lemma_sum_indicator(t, h, x, f);
        if keys.last() == h {
            assert(!t.contains(h)) by {
                if t.contains(h) {
                    let i = choose|i: int| 0 <= i < t.len() && t[i] == h;
                    assert(keys[i] != keys[keys.len() - 1]);
                }
            }
            assert(keys.contains(h)) by {
                assert(keys[keys.len() - 1] == h);
            }
        } else {
            assert(keys.contains(h) == t.contains(h)) by {
                if keys.contains(h) {
                    let i = choose|i: int| 0 <= i < keys.len() && keys[i] == h;
                    assert(t[i] == h);
                }
                if t.contains(h) {
                    let i = choose|i: int| 0 <= i < t.len() && t[i] == h;
                    assert(keys[i] == h);
                }
            }
        }
    }
}

proof fn lemma_entries_split(keys: Seq<Seq<char>>, es: Seq<AttestationEntry>)
    requires
        forall|i: int, j: int| #![trigger keys[i], keys[j]] 0 <= i < j < keys.len() ==> keys[i] != keys[j],
        forall|j: int| 0 <= j < es.len() ==> keys.contains((#[trigger] es[j]).hash@),
    ensures
        sum_over(keys, |k: Seq<char>| entry_lines_for(es, k)) == entries_total(es),
    decreases es.len(),
{
    if es.len() == 0 {
        lemma_sum_ext(keys, |k: Seq<char>| entry_lines_for(es, k), |k: Seq<char>| 0int);
        lemma_sum_zero(keys);
        assert(entries_total(es) == 0);
    } else {
        let t = es.drop_last();
        let e = es.last();
        let x = ranges_size(e.line_ranges@);
        assert forall|j: int| 0 <= j < t.len() implies keys.contains((#[trigger] t[j]).hash@) by {
            assert(t[j] == es[j]);
        }
        lemma_entries_split(keys, t);
        let f = |k: Seq<char>| entry_lines_for(t, k);
        let g = |k: Seq<char>| if k == e.hash@ { x } else { 0 };
        lemma_sum_ext(keys, |k: Seq<char>| entry_lines_for(es, k), |k: Seq<char>| f(k) + g(k));
        lemma_sum_add(keys, f, g);
        assert(keys.contains(es[es.len() - 1].hash@));
        lemma_sum_indicator(keys, e.hash@, x, g);
        assert(sum_over(keys, f) == entries_total(t));
        assert(entries_total(es) == entries_total(t) + x);
        assert(sum_over(keys, g) == x);
        assert(sum_over(keys, |k: Seq<char>| entry_lines_for(es, k)) == sum_over(keys, f) + sum_over(keys, g));
    }
}

proof fn lemma_sum_zero(keys: Seq<Seq<char>>)
    ensures
        sum_over(keys, |k: Seq<char>| 0int) == 0,
    decreases keys.len(),
{
    if keys.len() > 0 {
        lemma_sum_zero(keys.drop_last());
    }
}

proof fn lemma_files_split(keys: Seq<Seq<char>>, fs: Seq<FileAttestation>)
    requires
        forall|i: int, j: int| #![trigger keys[i], keys[j]] 0 <= i < j < keys.len() ==> keys[i] != keys[j],
        forall|a: int, b: int|
            0 <= a < fs.len() && 0 <= b < fs[a].entries@.len() ==> keys.contains(
                (#[trigger] fs[a].entries@[b]).hash@,
            ),
    ensures
        sum_over(keys, |k: Seq<char>| file_lines_for(fs, k)) == files_total(fs),
    decreases fs.len(),
{
    if fs.len() == 0 {
        lemma_sum_ext(keys, |k: Seq<char>| file_lines_for(fs, k), |k: Seq<char>| 0int);
        lemma_sum_zero(keys);
    } else {
        let t = fs.drop_last();
        let es = fs.last().entries@;
        assert forall|a: int, b: int|
            0 <= a < t.len() && 0 <= b < t[a].entries@.len() implies keys.contains(
            (#[trigger] t[a].entries@[b]).hash@,
        ) by {
            assert(t[a] == fs[a]);
        }
        lemma_files_split(keys, t);
        assert forall|j: int| 0 <= j < es.len() implies keys.contains((#[trigger] es[j]).hash@) by {
            assert(fs[fs.len() - 1].entries@[j] == es[j]);
        }
        lemma_entries_split(keys, es);
        let f = |k: Seq<char>| file_lines_for(t, k);
        let g = |k: Seq<char>| entry_lines_for(es, k);
        lemma_sum_ext(keys, |k: Seq<char>| file_lines_for(fs, k), |k: Seq<char>| f(k) + g(k));
        lemma_sum_add(keys, f, g);
    }
}

proof fn lemma_lines_for_bounded(fs: Seq<FileAttestation>, k: Seq<char>)
    requires
        files_wf(fs),
    ensures
        0 <= file_lines_for(fs, k) <= files_total(fs),
    decreases fs.len(),
{
    if fs.len() > 0 {
        let t = fs.drop_last();
        assert(files_wf(t)) by {
            assert forall|i: int| 0 <= i < t.len() implies entries_wf((#[trigger] t[i]).entries@) by {
                assert(t[i] == fs[i]);
            }
        }
        lemma_lines_for_bounded(t, k);
        lemma_entry_bounded(fs.last().entries@, k);
    }
}

proof fn lemma_entry_bounded(es: Seq<AttestationEntry>, k: Seq<char>)
    requires
        entries_wf(es),
    ensures
        0 <= entry_lines_for(es, k) <= entries_total(es),
    decreases es.len(),
{
    if es.len() > 0 {
        let t = es.drop_last();
        assert(entries_wf(t)) by {
            assert forall|i: int| 0 <= i < t.len() implies crate::line_range::all_wf((#[trigger] t[i]).line_ranges@) by {
                assert(t[i] == es[i]);
            }
        }
        lemma_entry_bounded(t, k);
        crate::authorship_log::lemma_ranges_size_nonneg_pub(es.last().line_ranges@);
    }
}

proof fn lemma_accepted_is_sum(ps: Seq<(Seq<char>, PromptRecord)>, fs: Seq<FileAttestation>)
    requires
        files_wf(fs),
        files_total(fs) <= u32::MAX,
        forall|i: int|
            0 <= i < ps.len() ==> (#[trigger] ps[i]).1.accepted_lines == capped(file_lines_for(fs, ps[i].0)),
    ensures
        accepted_sum(ps) == sum_over(keys_of(ps), |k: Seq<char>| file_lines_for(fs, k)),
    decreases ps.len(),
{
    if ps.len() > 0 {
        let t = ps.drop_last();
        assert forall|i: int| 0 <= i < t.len() implies (#[trigger] t[i]).1.accepted_lines == capped(
            file_lines_for(fs, t[i].0),
        ) by {
            assert(t[i] == ps[i]);
        }
        lemma_accepted_is_sum(t, fs);
        assert(keys_of(ps).drop_last() =~= keys_of(t));
        lemma_lines_for_bounded(fs, ps.last().0);
        assert(ps[ps.len() - 1].1.accepted_lines == capped(file_lines_for(fs, ps[ps.len() - 1].0)));
    }
}

/// The accepted lines of all sessions add up to the AI-attributed lines of
/// all attestations: every entry's session has a prompt record, and each
/// record holds its session's line count, as `finalize` leaves them (when
/// the total fits in `u32`).
pub proof fn law_ownership_sum(atts: Seq<FileAttestation>, prompts: Seq<(Seq<char>, PromptRecord)>)
    requires
        files_wf(atts),
        distinct_keys(prompts),
        hash_covered(atts, prompts),
        forall|i: int|
            0 <= i < prompts.len() ==> (#[trigger] prompts[i]).1.accepted_lines == capped(
                file_lines_for(atts, prompts[i].0),
            ),
        files_total(atts) <= u32::MAX,
    ensures
        accepted_sum(prompts) == files_total(atts),
{
    let keys = keys_of(prompts);
    assert forall|i: int, j: int| #![trigger keys[i], keys[j]] 0 <= i < j < keys.len() implies keys[i] != keys[j] by {
        assert(prompts[i].0 != prompts[j].0);
    }
    assert forall|a: int, b: int|
        0 <= a < atts.len() && 0 <= b < atts[a].entries@.len() implies keys.contains(
        (#[trigger] atts[a].entries@[b]).hash@,
    ) by {
        let h = atts[a].entries@[b].hash@;
        assert(has_key(prompts, h));
        let q = choose|q: int| 0 <= q < prompts.len() && (#[trigger] prompts[q]).0 == h;
        assert(keys[q] == h);
    }
    lemma_files_split(keys, atts);
    lemma_accepted_is_sum(prompts, atts);
}

} // verus!
