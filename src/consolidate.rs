use vstd::prelude::*;

use crate::authorship_log::{canonical_of, AttestationEntry, AuthorshipLog};
use crate::line_range::{all_wf, canonical, covers, lemma_lines_concat, lines_of, LineRange};
use crate::text::chars_of;

verus! {

/// Strict lexicographic order on characters, as `String`'s `<` orders.
pub open spec fn str_lt(a: Seq<char>, b: Seq<char>) -> bool
    decreases a.len(),
{
    if a.len() == 0 {
        b.len() > 0
    } else if b.len() == 0 {
        false
    } else if a[0] != b[0] {
        a[0] < b[0]
    } else {
        str_lt(a.drop_first(), b.drop_first())
    }
}

proof fn lemma_str_lt_suffix(a: Seq<char>, b: Seq<char>, i: int)
    requires
        0 <= i <= a.len(),
        i <= b.len(),
        a.subrange(0, i) == b.subrange(0, i),
    ensures
        str_lt(a, b) == str_lt(a.subrange(i, a.len() as int), b.subrange(i, b.len() as int)),
    decreases i,
{
    if i > 0 {
        assert(a[0] == a.subrange(0, i)[0]);
        assert(b[0] == b.subrange(0, i)[0]);
        assert(a.drop_first().subrange(0, i - 1) =~= a.subrange(0, i).drop_first());
        assert(b.drop_first().subrange(0, i - 1) =~= b.subrange(0, i).drop_first());
        lemma_str_lt_suffix(a.drop_first(), b.drop_first(), i - 1);
        assert(a.drop_first().subrange(i - 1, a.len() - 1) =~= a.subrange(i, a.len() as int));
        assert(b.drop_first().subrange(i - 1, b.len() - 1) =~= b.subrange(i, b.len() as int));
    } else {
        assert(a.subrange(0, a.len() as int) =~= a);
        assert(b.subrange(0, b.len() as int) =~= b);
    }
}

/// Compares two strings: negative, zero or positive as `a` sorts before,
/// equal to or after `b`.
pub fn compare_str(a: &str, b: &str) -> (r: i8)
    ensures
        r < 0 <==> str_lt(a@, b@),
        r == 0 <==> a@ == b@,
        r > 0 <==> str_lt(b@, a@),
{
    let x = chars_of(a);
    let y = chars_of(b);
    let mut i: usize = 0;
    while i < x.len() && i < y.len() && x[i] == y[i]
        invariant
            0 <= i <= x@.len(),
            i <= y@.len(),
            x@.subrange(0, i as int) == y@.subrange(0, i as int),
        decreases x@.len() - i,
    {
        assert(x@.subrange(0, i + 1) =~= x@.subrange(0, i as int).push(x@[i as int]));
        assert(y@.subrange(0, i + 1) =~= y@.subrange(0, i as int).push(y@[i as int]));
        i = i + 1;
    }
    proof {
        lemma_str_lt_suffix(x@, y@, i as int);
        lemma_str_lt_suffix(y@, x@, i as int);
    }
    let ghost xs = x@.subrange(i as int, x@.len() as int);
    let ghost ys = y@.subrange(i as int, y@.len() as int);
    if i == x.len() && i == y.len() {
        assert(x@.subrange(0, i as int) =~= x@);
        assert(y@.subrange(0, i as int) =~= y@);
        proof {
            lemma_str_lt_irrefl(x@);
        }
        0
    } else if i == x.len() {
        assert(x@ != y@ && str_lt(xs, ys) && !str_lt(ys, xs));
        -1
    } else if i == y.len() {
        assert(x@ != y@ && str_lt(ys, xs) && !str_lt(xs, ys));
        1
    } else {
        assert(xs[0] == x@[i as int] && ys[0] == y@[i as int]);
        assert(x@[i as int] != y@[i as int]);
        assert(x@ != y@) by {
            if x@ == y@ {
                assert(x@[i as int] == y@[i as int]);
            }
        }
        if x[i] < y[i] {
            -1
        } else {
            1
        }
    }
}

/// The lines that the entries of `es` with hash `k` hold together.
pub open spec fn hash_lines(es: Seq<AttestationEntry>, k: Seq<char>) -> Set<int> {
    Set::new(
        |n: int|
            exists|j: int|
                0 <= j < es.len() && (#[trigger] es[j]).hash@ == k && covers(es[j].line_ranges@, n),
    )
}

/// Whether some entry of `es` with hash `k` holds at least one range.
pub open spec fn hash_present(es: Seq<AttestationEntry>, k: Seq<char>) -> bool {
    exists|j: int| 0 <= j < es.len() && (#[trigger] es[j]).hash@ == k && es[j].line_ranges@.len() > 0
}

/// `new` is the consolidated form of `old`: one entry per hash that holds
/// lines, sorted by hash, each with the canonical ranges of all the lines
/// of that hash.
pub open spec fn consolidated(old: Seq<AttestationEntry>, new: Seq<AttestationEntry>) -> bool {
    &&& forall|i: int, j: int|
        #![trigger new[i], new[j]]
        0 <= i < j < new.len() ==> str_lt(new[i].hash@, new[j].hash@)
    &&& forall|i: int|
        0 <= i < new.len() ==> (#[trigger] new[i]).line_ranges@ == canonical_of(
            hash_lines(old, new[i].hash@),
        )
    &&& forall|k: Seq<char>|
        (exists|i: int| 0 <= i < new.len() && (#[trigger] new[i]).hash@ == k) <==> hash_present(
            old,
            k,
        )
}

pub open spec fn entries_wf(es: Seq<AttestationEntry>) -> bool {
    forall|j: int| 0 <= j < es.len() ==> all_wf((#[trigger] es[j]).line_ranges@)
}

/// The group invariant while consolidating: sorted distinct hashes, each
/// with the (unmerged) ranges of its lines.
spec fn groups_ok(done: Seq<AttestationEntry>, groups: Seq<AttestationEntry>) -> bool {
    &&& forall|i: int, j: int|
        #![trigger groups[i], groups[j]]
        0 <= i < j < groups.len() ==> str_lt(groups[i].hash@, groups[j].hash@)
    &&& forall|i: int|
        0 <= i < groups.len() ==> all_wf((#[trigger] groups[i]).line_ranges@) && lines_of(
            groups[i].line_ranges@,
        ) == hash_lines(done, groups[i].hash@)
    &&& forall|k: Seq<char>|
        (exists|i: int| 0 <= i < groups.len() && (#[trigger] groups[i]).hash@ == k) <==> hash_present(
            done,
            k,
        )
}

proof fn lemma_hash_lines_push(done: Seq<AttestationEntry>, e: AttestationEntry, k: Seq<char>)
    ensures
        hash_lines(done.push(e), k) == if e.hash@ == k {
            hash_lines(done, k).union(lines_of(e.line_ranges@))
        } else {
            hash_lines(done, k)
        },
        hash_present(done.push(e), k) == (hash_present(done, k) || (e.hash@ == k
            && e.line_ranges@.len() > 0)),
{
    let d2 = done.push(e);
    assert forall|n: int| #[trigger] hash_lines(d2, k).contains(n) == (if e.hash@ == k {
        hash_lines(done, k).union(lines_of(e.line_ranges@))
    } else {
        hash_lines(done, k)
    }).contains(n) by {
        if hash_lines(d2, k).contains(n) {
            let j = choose|j: int|
                0 <= j < d2.len() && (#[trigger] d2[j]).hash@ == k && covers(d2[j].line_ranges@, n);
            if j < done.len() {
                assert(done[j] == d2[j]);
            }
        }
        if hash_lines(done, k).contains(n) {
            let j = choose|j: int|
                0 <= j < done.len() && (#[trigger] done[j]).hash@ == k && covers(
                    done[j].line_ranges@,
                    n,
                );
            assert(d2[j] == done[j]);
        }
        if e.hash@ == k && lines_of(e.line_ranges@).contains(n) {
            assert(d2[done.len() as int] == e);
        }
    }
    assert(hash_lines(d2, k) =~= (if e.hash@ == k {
        hash_lines(done, k).union(lines_of(e.line_ranges@))
    } else {
        hash_lines(done, k)
    }));
    if hash_present(d2, k) {
        let j = choose|j: int|
            0 <= j < d2.len() && (#[trigger] d2[j]).hash@ == k && d2[j].line_ranges@.len() > 0;
        if j < done.len() {
            assert(done[j] == d2[j]);
        }
    }
    if hash_present(done, k) {
        let j = choose|j: int|
            0 <= j < done.len() && (#[trigger] done[j]).hash@ == k && done[j].line_ranges@.len() > 0;
        assert(d2[j] == done[j]);
    }
    if e.hash@ == k && e.line_ranges@.len() > 0 {
        assert(d2[done.len() as int] == e);
    }
}

/// One entry per hash, sorted by hash, with merged ranges.
pub fn consolidate_entries(entries: &Vec<AttestationEntry>) -> (r: Vec<AttestationEntry>)
    requires
        entries_wf(entries@),
    ensures
        consolidated(entries@, r@),
        forall|i: int| 0 <= i < r@.len() ==> canonical((#[trigger] r@[i]).line_ranges@),
        entries_wf(r@),
{
    let mut groups: Vec<AttestationEntry> = Vec::new();
    let mut j: usize = 0;
    while j < entries.len()
        invariant
            0 <= j <= entries@.len(),
            entries_wf(entries@),
            groups_ok(entries@.subrange(0, j as int), groups@),
        decreases entries@.len() - j,
    {
        let ghost done = entries@.subrange(0, j as int);
        let e = &entries[j];
        assert(entries@.subrange(0, j + 1) =~= done.push(*e));
        assert(all_wf(e.line_ranges@));
        if e.line_ranges.len() > 0 {
            let mut p: usize = 0;
            while p < groups.len() && compare_str(groups[p].hash.as_str(), e.hash.as_str()) < 0
                invariant
                    0 <= p <= groups@.len(),
                    forall|q: int| 0 <= q < p ==> str_lt((#[trigger] groups@[q]).hash@, e.hash@),
                decreases groups@.len() - p,
            {
                p = p + 1;
            }
            let ghost before = groups@;
            if p < groups.len() && compare_str(groups[p].hash.as_str(), e.hash.as_str()) == 0 {
                let mut g = groups.remove(p);
                let ghost g0 = g;
                let mut q: usize = 0;
                while q < e.line_ranges.len()
                    invariant
                        0 <= q <= e.line_ranges@.len(),
                        g.hash == g0.hash,
                        g.line_ranges@ == g0.line_ranges@ + e.line_ranges@.subrange(0, q as int),
                    decreases e.line_ranges@.len() - q,
                {
                    g.line_ranges.push(e.line_ranges[q]);
                    q = q + 1;
                    assert(g.line_ranges@ =~= g0.line_ranges@ + e.line_ranges@.subrange(
                        0,
                        q as int,
                    ));
                }
                assert(e.line_ranges@.subrange(0, e.line_ranges@.len() as int) =~= e.line_ranges@);
                groups.insert(p, g);
                proof {
                    lemma_lines_concat(g0.line_ranges@, e.line_ranges@);
                    lemma_hash_lines_push(done, *e, g.hash@);
                    assert(groups@ =~= before.update(p as int, g));
                    let d2 = done.push(*e);
                    assert forall|a: int|
                        0 <= a < groups@.len() implies all_wf(
                        (#[trigger] groups@[a]).line_ranges@,
                    ) && lines_of(groups@[a].line_ranges@) == hash_lines(d2, groups@[a].hash@) by {
                        lemma_hash_lines_push(done, *e, groups@[a].hash@);
                        if a != p {
                            assert(groups@[a] == before[a]);
                            if a < p {
                                assert(str_lt(before[a].hash@, before[p as int].hash@));
                            } else {
                                assert(str_lt(before[p as int].hash@, before[a].hash@));
                            }
                            assert(before[a].hash@ != e.hash@) by {
                                if before[a].hash@ == e.hash@ {
                                    lemma_str_lt_irrefl(e.hash@);
                                }
                            }
                        }
                    }
                    assert forall|k: Seq<char>|
                        (exists|i: int| 0 <= i < groups@.len() && (#[trigger] groups@[i]).hash@ == k)
                            <==> hash_present(d2, k) by {
                        lemma_hash_lines_push(done, *e, k);
                        if exists|i: int| 0 <= i < groups@.len() && (#[trigger] groups@[i]).hash@ == k {
                            let i = choose|i: int| 0 <= i < groups@.len() && (#[trigger] groups@[i]).hash@ == k;
                            assert(before[i].hash@ == k);
                        }
                        if hash_present(done, k) {
                            let i = choose|i: int| 0 <= i < before.len() && (#[trigger] before[i]).hash@ == k;
                            assert(groups@[i].hash@ == k);
                        }
                    }
                    assert forall|a: int, b: int|
                        #![trigger groups@[a], groups@[b]]
                        0 <= a < b < groups@.len() implies str_lt(groups@[a].hash@, groups@[b].hash@) by {
                        assert(str_lt(before[a].hash@, before[b].hash@));
                    }
                }
            } else {
                let mut ranges: Vec<LineRange> = Vec::new();
                let mut q: usize = 0;
                while q < e.line_ranges.len()
                    invariant
                        0 <= q <= e.line_ranges@.len(),
                        ranges@ == e.line_ranges@.subrange(0, q as int),
                    decreases e.line_ranges@.len() - q,
                {
                    ranges.push(e.line_ranges[q]);
                    q = q + 1;
                    assert(ranges@ =~= e.line_ranges@.subrange(0, q as int));
                }
                assert(e.line_ranges@.subrange(0, e.line_ranges@.len() as int) =~= e.line_ranges@);
                let g = AttestationEntry::new(e.hash.clone(), ranges);
                groups.insert(p, g);
                proof {
                    let d2 = done.push(*e);
                    assert(!hash_present(done, e.hash@)) by {
                        if hash_present(done, e.hash@) {
                            let i = choose|i: int| 0 <= i < before.len() && (#[trigger] before[i]).hash@ == e.hash@;
                            if i < p {
                                lemma_str_lt_irrefl(e.hash@);
                            } else if i > p {
                                assert(str_lt(before[p as int].hash@, before[i].hash@));
                                lemma_str_lt_total(before[p as int].hash@, e.hash@);
                                lemma_str_lt_irrefl(e.hash@);
                                lemma_str_lt_trans(e.hash@, before[p as int].hash@, e.hash@);
                            }
                        }
                    }
                    assert(hash_lines(done, e.hash@) =~= Set::empty()) by {
                        assert forall|n: int| !hash_lines(done, e.hash@).contains(n) by {
                            if hash_lines(done, e.hash@).contains(n) {
                                let jj = choose|jj: int|
                                    0 <= jj < done.len() && (#[trigger] done[jj]).hash@ == e.hash@
                                        && covers(done[jj].line_ranges@, n);
                                assert(done[jj].line_ranges@.len() > 0);
                            }
                        }
                    }
                    lemma_hash_lines_push(done, *e, e.hash@);
                    assert(hash_lines(d2, e.hash@) =~= lines_of(e.line_ranges@));
                    assert forall|a: int|
                        0 <= a < groups@.len() implies all_wf(
                        (#[trigger] groups@[a]).line_ranges@,
                    ) && lines_of(groups@[a].line_ranges@) == hash_lines(d2, groups@[a].hash@) by {
                        lemma_hash_lines_push(done, *e, groups@[a].hash@);
                        if a < p {
                            assert(groups@[a] == before[a]);
                            assert(before[a].hash@ != e.hash@) by {
                                if before[a].hash@ == e.hash@ {
                                    lemma_str_lt_irrefl(e.hash@);
                                }
                            }
                        } else if a > p {
                            assert(groups@[a] == before[a - 1]);
                            assert(before[a - 1].hash@ != e.hash@) by {
                                if before[a - 1].hash@ == e.hash@ {
                                    assert(hash_present(done, e.hash@));
                                }
                            }
                        }
                    }
                    if p < before.len() {
                        lemma_str_lt_total(before[p as int].hash@, e.hash@);
                    }
                    assert forall|a: int, b: int|
                        #![trigger groups@[a], groups@[b]]
                        0 <= a < b < groups@.len() implies str_lt(groups@[a].hash@, groups@[b].hash@) by {
                        if a < p && b < p {
                            assert(str_lt(before[a].hash@, before[b].hash@));
                        } else if a < p && b == p {
                        } else if a < p && b > p {
                            assert(str_lt(before[a].hash@, before[b - 1].hash@));
                        } else if a == p {
                            if b - 1 > p {
                                assert(str_lt(before[p as int].hash@, before[b - 1].hash@));
                                lemma_str_lt_trans(e.hash@, before[p as int].hash@, before[b - 1].hash@);
                            }
                        } else {
                            assert(str_lt(before[a - 1].hash@, before[b - 1].hash@));
                        }
                    }
                    assert forall|k: Seq<char>|
                        (exists|i: int| 0 <= i < groups@.len() && (#[trigger] groups@[i]).hash@ == k)
                            <==> hash_present(d2, k) by {
                        lemma_hash_lines_push(done, *e, k);
                        if exists|i: int| 0 <= i < groups@.len() && (#[trigger] groups@[i]).hash@ == k {
                            let i = choose|i: int| 0 <= i < groups@.len() && (#[trigger] groups@[i]).hash@ == k;
                            if i < p {
                                assert(before[i].hash@ == k);
                            } else if i > p {
                                assert(before[i - 1].hash@ == k);
                            }
                        }
                        if hash_present(done, k) {
                            let i = choose|i: int| 0 <= i < before.len() && (#[trigger] before[i]).hash@ == k;
                            if i < p {
                                assert(groups@[i].hash@ == k);
                            } else {
                                assert(groups@[i + 1].hash@ == k);
                            }
                        }
                        if k == e.hash@ {
                            assert(groups@[p as int].hash@ == k);
                        }
                    }
                }
            }
        } else {
            proof {
                let d2 = done.push(*e);
                assert forall|a: int|
                    0 <= a < groups@.len() implies all_wf((#[trigger] groups@[a]).line_ranges@)
                    && lines_of(groups@[a].line_ranges@) == hash_lines(d2, groups@[a].hash@) by {
                    lemma_hash_lines_push(done, *e, groups@[a].hash@);
                    assert(lines_of(e.line_ranges@) =~= Set::empty());
                }
                assert forall|k: Seq<char>|
                    (exists|i: int| 0 <= i < groups@.len() && (#[trigger] groups@[i]).hash@ == k)
                        <==> hash_present(d2, k) by {
                    lemma_hash_lines_push(done, *e, k);
                }
            }
        }
        j = j + 1;
    }
    assert(entries@.subrange(0, entries@.len() as int) =~= entries@);
    let mut out: Vec<AttestationEntry> = Vec::new();
    let mut i: usize = 0;
    while i < groups.len()
        invariant
            0 <= i <= groups@.len(),
            groups_ok(entries@, groups@),
            out@.len() == i,
            forall|q: int|
                0 <= q < i ==> (#[trigger] out@[q]).hash@ == groups@[q].hash@
                    && out@[q].line_ranges@ == canonical_of(hash_lines(entries@, groups@[q].hash@))
                    && canonical(out@[q].line_ranges@),
        decreases groups@.len() - i,
    {
        let merged = AuthorshipLog::merge_line_ranges(&groups[i].line_ranges);
        out.push(AttestationEntry::new(groups[i].hash.clone(), merged));
        i = i + 1;
    }
    proof {
        assert forall|q: int| 0 <= q < out@.len() implies all_wf((#[trigger] out@[q]).line_ranges@) by {
            assert(canonical(out@[q].line_ranges@));
        }
        assert forall|k: Seq<char>|
            (exists|a: int| 0 <= a < out@.len() && (#[trigger] out@[a]).hash@ == k) <==> hash_present(
                entries@,
                k,
            ) by {
            if exists|a: int| 0 <= a < out@.len() && (#[trigger] out@[a]).hash@ == k {
                let a = choose|a: int| 0 <= a < out@.len() && (#[trigger] out@[a]).hash@ == k;
                assert(groups@[a].hash@ == k);
            }
            if hash_present(entries@, k) {
                let a = choose|a: int| 0 <= a < groups@.len() && (#[trigger] groups@[a]).hash@ == k;
                assert(out@[a].hash@ == k);
            }
        }
        assert forall|a: int, b: int|
            #![trigger out@[a], out@[b]]
            0 <= a < b < out@.len() implies str_lt(out@[a].hash@, out@[b].hash@) by {
            assert(str_lt(groups@[a].hash@, groups@[b].hash@));
        }
    }
    out
}

pub proof fn lemma_str_lt_irrefl(a: Seq<char>)
    ensures
        !str_lt(a, a),
    decreases a.len(),
{
    if a.len() > 0 {
        lemma_str_lt_irrefl(a.drop_first());
    }
}

pub proof fn lemma_str_lt_total(a: Seq<char>, b: Seq<char>)
    ensures
        str_lt(a, b) || str_lt(b, a) || a == b,
    decreases a.len(),
{
    if a.len() > 0 && b.len() > 0 && a[0] == b[0] {
        lemma_str_lt_total(a.drop_first(), b.drop_first());
        if a.drop_first() == b.drop_first() {
            assert forall|i: int| 0 <= i < a.len() implies a[i] == b[i] by {
                if i > 0 {
                    assert(a[i] == a.drop_first()[i - 1]);
                    assert(b[i] == b.drop_first()[i - 1]);
                }
            }
            assert(a =~= b);
        }
    } else if a.len() == 0 && b.len() == 0 {
        assert(a =~= b);
    }
}

pub proof fn lemma_str_lt_trans(a: Seq<char>, b: Seq<char>, c: Seq<char>)
    requires
        str_lt(a, b),
        str_lt(b, c),
    ensures
        str_lt(a, c),
    decreases a.len(),
{
    if a.len() > 0 && b.len() > 0 && c.len() > 0 && a[0] == b[0] && b[0] == c[0] {
        lemma_str_lt_trans(a.drop_first(), b.drop_first(), c.drop_first());
    }
}

} // verus!
