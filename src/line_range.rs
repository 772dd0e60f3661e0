use vstd::prelude::*;

verus! {

/// An inclusive, 1-indexed run of line numbers.
#[derive(Debug, Clone, Copy, PartialEq, Eq, Structural)]
pub enum LineRange {
    Single(u32),
    Range(u32, u32),
}

impl LineRange {
    /// First line of the range.
    pub open spec fn lo(self) -> int {
        match self {
            LineRange::Single(n) => n as int,
            LineRange::Range(s, _) => s as int,
        }
    }

    /// Last line of the range.
    pub open spec fn hi(self) -> int {
        match self {
            LineRange::Single(n) => n as int,
            LineRange::Range(_, e) => e as int,
        }
    }

    /// A range never runs backwards.
    pub open spec fn wf(self) -> bool {
        self.lo() <= self.hi()
    }

    /// The canonical shape: a one-line run is written as `Single`.
    pub open spec fn canon(self) -> bool {
        match self {
            LineRange::Single(_) => true,
            LineRange::Range(s, e) => s < e,
        }
    }

    pub open spec fn has(self, n: int) -> bool {
        self.lo() <= n <= self.hi()
    }

    /// The set of lines the value stands for.
    pub open spec fn line_set(self) -> Set<int> {
        Set::new(|n: int| self.has(n))
    }

    /// Number of lines in a well-formed range.
    pub open spec fn size(self) -> int {
        self.hi() - self.lo() + 1
    }

    pub fn start(&self) -> (r: u32)
        ensures
            r == self.lo(),
    {
        match self {
            LineRange::Single(n) => *n,
            LineRange::Range(s, _) => *s,
        }
    }

    pub fn end(&self) -> (r: u32)
        ensures
            r == self.hi(),
    {
        match self {
            LineRange::Single(n) => *n,
            LineRange::Range(_, e) => *e,
        }
    }

    /// The canonical value for the lines `lo..=hi`.
    pub fn from_bounds(lo: u32, hi: u32) -> (r: LineRange)
        requires
            lo <= hi,
        ensures
            r == span(lo as int, hi as int),
            r.lo() == lo,
            r.hi() == hi,
            r.wf(),
            r.canon(),
    {
        if lo == hi {
            LineRange::Single(lo)
        } else {
            LineRange::Range(lo, hi)
        }
    }

    pub fn is_canonical(&self) -> (r: bool)
        ensures
            r == self.canon(),
    {
        match self {
            LineRange::Single(_) => true,
            LineRange::Range(s, e) => *s < *e,
        }
    }

    pub fn contains(&self, line: u32) -> (r: bool)
        ensures
            r == self.has(line as int),
    {
        self.start() <= line && line <= self.end()
    }

    /// Every line of the range, in increasing order.
    pub fn expand(&self) -> (r: Vec<u32>)
        requires
            self.wf(),
        ensures
            r@.len() == self.size(),
            forall|k: int| 0 <= k < r@.len() ==> r@[k] == self.lo() + k,
    {
        let lo = self.start();
        let hi = self.end();
        let mut out: Vec<u32> = Vec::new();
        let mut n: u64 = lo as u64;
        while n <= hi as u64
            invariant
                lo <= n <= hi as u64 + 1,
                lo == self.lo(),
                hi == self.hi(),
                out@.len() == n - lo,
                forall|k: int| 0 <= k < out@.len() ==> out@[k] == lo + k,
            decreases hi as u64 + 1 - n,
        {
            out.push(n as u32);
            n = n + 1;
        }
        out
    }

    /// Relocates the range after `offset` lines were inserted (or, when
    /// negative, removed) at `insertion_point`. A range wholly before the
    /// point, or a shift by nothing, leaves it unchanged; otherwise each end
    /// at or after the point moves by `offset`, keeping the variant. The
    /// result is absent when the moved range would be empty or leave the
    /// 1-based `u32` line space.
    pub fn shift(&self, insertion_point: u32, offset: i32) -> (r: Option<LineRange>)
        ensures
            r == shifted(*self, insertion_point as int, offset as int),
    {
        let lo = self.start() as i64;
        let hi = self.end() as i64;
        let p = insertion_point as i64;
        let d = offset as i64;
        if hi < p || d == 0 {
            return Some(*self);
        }
        let new_lo = if lo >= p {
            lo + d
        } else {
            lo
        };
        let new_hi = if hi >= p {
            hi + d
        } else {
            hi
        };
        if 1 <= new_lo && new_lo <= new_hi && new_hi <= u32::MAX as i64 {
            match self {
                LineRange::Single(_) => Some(LineRange::Single(new_lo as u32)),
                LineRange::Range(_, _) => Some(LineRange::Range(new_lo as u32, new_hi as u32)),
            }
        } else {
            None
        }
    }

    /// The lines of `self` that `other` does not hold: up to two ranges,
    /// the part before `other` first.
    pub fn remove(&self, other: &LineRange) -> (r: Vec<LineRange>)
        requires
            self.wf(),
            other.wf(),
        ensures
            r@ == removed(*self, *other),
            canonical(r@),
            lines_of(r@) == self.line_set().difference(other.line_set()),
    {
        let lo = self.start();
        let hi = self.end();
        let olo = other.start();
        let ohi = other.end();
        let mut out: Vec<LineRange> = Vec::new();
        if olo > lo {
            let left_hi = if hi < olo - 1 {
                hi
            } else {
                olo - 1
            };
            out.push(LineRange::from_bounds(lo, left_hi));
        }
        if ohi < hi {
            let right_lo = if lo > ohi + 1 {
                lo
            } else {
                ohi + 1
            };
            out.push(LineRange::from_bounds(right_lo, hi));
        }
        proof {
            lemma_removed(*self, *other);
        }
        out
    }
}

/// The canonical value for the lines `lo..=hi`.
pub open spec fn span(lo: int, hi: int) -> LineRange {
    if lo == hi {
        LineRange::Single(lo as u32)
    } else {
        LineRange::Range(lo as u32, hi as u32)
    }
}

pub open spec fn in_u32(n: int) -> bool {
    0 <= n <= u32::MAX
}

pub broadcast proof fn lemma_span(lo: int, hi: int)
    requires
        in_u32(lo),
        in_u32(hi),
        lo <= hi,
    ensures
        (#[trigger] span(lo, hi)).lo() == lo,
        span(lo, hi).hi() == hi,
        span(lo, hi).wf(),
        span(lo, hi).canon(),
{
}

/// Where line `n` goes when `d` lines are inserted at `p`.
pub open spec fn moved(n: int, p: int, d: int) -> int {
    if n >= p {
        n + d
    } else {
        n
    }
}

/// The range with its ends replaced, keeping its variant.
pub open spec fn with_ends(r: LineRange, lo: int, hi: int) -> LineRange {
    match r {
        LineRange::Single(_) => LineRange::Single(lo as u32),
        LineRange::Range(_, _) => LineRange::Range(lo as u32, hi as u32),
    }
}

/// A range wholly before `p`, or shifted by nothing, is unchanged; else
/// each end at or after `p` moves by `d`, and the range is absent when it
/// would be empty or leave the 1-based `u32` line space.
pub open spec fn shifted(r: LineRange, p: int, d: int) -> Option<LineRange> {
    let lo = moved(r.lo(), p, d);
    let hi = moved(r.hi(), p, d);
    if r.hi() < p || d == 0 {
        Some(r)
    } else if 1 <= lo && lo <= hi && hi <= u32::MAX {
        Some(with_ends(r, lo, hi))
    } else {
        None
    }
}

/// The lines of an optional range.
pub open spec fn opt_lines(o: Option<LineRange>) -> Set<int> {
    match o {
        Some(r) => r.line_set(),
        None => Set::empty(),
    }
}

pub open spec fn removed(a: LineRange, b: LineRange) -> Seq<LineRange> {
    let left = if b.lo() > a.lo() {
        seq![span(a.lo(), if a.hi() < b.lo() - 1 { a.hi() } else { b.lo() - 1 })]
    } else {
        Seq::empty()
    };
    let right = if b.hi() < a.hi() {
        seq![span(if a.lo() > b.hi() + 1 { a.lo() } else { b.hi() + 1 }, a.hi())]
    } else {
        Seq::empty()
    };
    left + right
}

pub open spec fn covers(s: Seq<LineRange>, n: int) -> bool {
    exists|i: int| 0 <= i < s.len() && (#[trigger] s[i]).has(n)
}

/// The union of the lines of every range in `s`.
pub open spec fn lines_of(s: Seq<LineRange>) -> Set<int> {
    Set::new(|n: int| covers(s, n))
}

pub open spec fn all_wf(s: Seq<LineRange>) -> bool {
    forall|i: int| 0 <= i < s.len() ==> (#[trigger] s[i]).wf()
}

/// Sorted, non-overlapping and non-adjacent.
pub open spec fn separated(s: Seq<LineRange>) -> bool {
    forall|i: int, j: int|
        #![trigger s[i], s[j]]
        0 <= i < j < s.len() ==> s[i].hi() + 1 < s[j].lo()
}

/// The canonical form of a set of lines: the fewest ranges, in order.
pub open spec fn canonical(s: Seq<LineRange>) -> bool {
    &&& forall|i: int| 0 <= i < s.len() ==> (#[trigger] s[i]).wf() && s[i].canon()
    &&& separated(s)
}

pub proof fn lemma_removed(a: LineRange, b: LineRange)
    requires
        a.wf(),
        b.wf(),
    ensures
        canonical(removed(a, b)),
        lines_of(removed(a, b)) == a.line_set().difference(b.line_set()),
{
    broadcast use lemma_span;

    let s = removed(a, b);
    assert forall|n: int| #[trigger] lines_of(s).contains(n) <==> a.line_set().difference(
        b.line_set(),
    ).contains(n) by {
        if a.has(n) && !b.has(n) {
            if n < b.lo() {
                assert(s[0].has(n));
            } else {
                assert(s[s.len() - 1].has(n));
            }
        }
        if covers(s, n) {
            let i = choose|i: int| 0 <= i < s.len() && (#[trigger] s[i]).has(n);
            assert(a.has(n) && !b.has(n));
        }
    }
    assert(lines_of(s) =~= a.line_set().difference(b.line_set()));
}


pub proof fn lemma_lines_concat(a: Seq<LineRange>, b: Seq<LineRange>)
    ensures
        lines_of(a + b) == lines_of(a).union(lines_of(b)),
{
    let t = a + b;
    assert forall|n: int| #[trigger] lines_of(t).contains(n) <==> lines_of(a).union(
        lines_of(b),
    ).contains(n) by {
        if covers(t, n) {
            let q = choose|q: int| 0 <= q < t.len() && (#[trigger] t[q]).has(n);
            if q < a.len() {
                assert(a[q].has(n));
            } else {
                assert(b[q - a.len()].has(n));
            }
        }
        if covers(a, n) {
            let q = choose|q: int| 0 <= q < a.len() && (#[trigger] a[q]).has(n);
            assert(t[q].has(n));
        }
        if covers(b, n) {
            let q = choose|q: int| 0 <= q < b.len() && (#[trigger] b[q]).has(n);
            assert(t[q + a.len()].has(n));
        }
    }
    assert(lines_of(t) =~= lines_of(a).union(lines_of(b)));
}

/// Strictly increasing.
pub open spec fn increasing(s: Seq<u32>) -> bool {
    forall|i: int, j: int| #![trigger s[i], s[j]] 0 <= i < j < s.len() ==> s[i] < s[j]
}

/// The set of the values of `s`.
pub open spec fn values_of(s: Seq<u32>) -> Set<int> {
    Set::new(|n: int| exists|k: int| 0 <= k < s.len() && s[k] == n)
}

/// The canonical ranges for a strictly increasing list of lines.
pub fn compress_lines(lines: &[u32]) -> (r: Vec<LineRange>)
    requires
        increasing(lines@),
    ensures
        canonical(r@),
        lines_of(r@) == values_of(lines@),
{
    broadcast use lemma_span;

    let mut result: Vec<LineRange> = Vec::new();
    if lines.len() == 0 {
        assert(lines_of(result@) =~= values_of(lines@));
        return result;
    }
    let mut start = lines[0];
    let mut end = lines[0];
    let ghost mut j0: int = 0;
    let mut i: usize = 1;
    while i < lines.len()
        invariant
            1 <= i <= lines@.len(),
            increasing(lines@),
            0 <= j0 < i,
            lines@[j0] == start,
            end == lines@[i - 1],
            start <= end,
            forall|k: int| j0 <= k < i ==> lines@[k] == start + (k - j0),
            canonical(result@),
            result@.len() > 0 ==> result@.last().hi() + 1 < start,
            forall|n: int| covers(result@, n) ==> exists|k: int| 0 <= k < j0 && lines@[k] == n,
            forall|k: int| 0 <= k < j0 ==> covers(result@, lines@[k] as int),
        decreases lines@.len() - i,
    {
        let line = lines[i];
        assert(lines@[i - 1] < lines@[i as int]);
        if line - end == 1 {
            end = line;
        } else {
            let ghost old_result = result@;
            let piece = LineRange::from_bounds(start, end);
            result.push(piece);
            proof {
                assert(result@.last() == piece);
                assert forall|a: int, b: int|
                    #![trigger result@[a], result@[b]]
                    0 <= a < b < result@.len() implies result@[a].hi() + 1 < result@[b].lo() by {
                    if b == result@.len() - 1 && a < b {
                        assert(old_result[a].hi() <= old_result.last().hi()) by {
                            if a < old_result.len() - 1 {
                                assert(old_result[a].hi() + 1 < old_result[old_result.len() - 1].lo());
                            }
                        }
                    }
                }
                assert forall|n: int| covers(result@, n) implies exists|k: int|
                    0 <= k < i && lines@[k] == n by {
                    let q = choose|q: int| 0 <= q < result@.len() && (#[trigger] result@[q]).has(n);
                    if q == result@.len() - 1 {
                        assert(lines@[j0 + (n - start)] == n);
                    } else {
                        assert(old_result[q].has(n));
                        assert(covers(old_result, n));
                    }
                }
                assert forall|k: int| 0 <= k < i implies covers(result@, lines@[k] as int) by {
                    if k >= j0 {
                        assert(result@[result@.len() - 1].has(lines@[k] as int));
                    } else {
                        assert(covers(old_result, lines@[k] as int));
                        let q = choose|q: int|
                            0 <= q < old_result.len() && (#[trigger] old_result[q]).has(
                                lines@[k] as int,
                            );
                        assert(result@[q].has(lines@[k] as int));
                    }
                }
                j0 = i as int;
            }
            start = line;
            end = line;
        }
        i = i + 1;
    }
    let ghost old_result = result@;
    let piece = LineRange::from_bounds(start, end);
    result.push(piece);
    proof {
        assert forall|a: int, b: int|
            #![trigger result@[a], result@[b]]
            0 <= a < b < result@.len() implies result@[a].hi() + 1 < result@[b].lo() by {
            if b == result@.len() - 1 && a < b {
                assert(old_result[a].hi() <= old_result.last().hi()) by {
                    if a < old_result.len() - 1 {
                        assert(old_result[a].hi() + 1 < old_result[old_result.len() - 1].lo());
                    }
                }
            }
        }
        assert forall|n: int| #[trigger] lines_of(result@).contains(n) <==> values_of(
            lines@,
        ).contains(n) by {
            if covers(result@, n) {
                let q = choose|q: int| 0 <= q < result@.len() && (#[trigger] result@[q]).has(n);
                if q == result@.len() - 1 {
                    assert(lines@[j0 + (n - start)] == n);
                } else {
                    assert(old_result[q].has(n));
                    assert(covers(old_result, n));
                }
            }
            if values_of(lines@).contains(n) {
                let k = choose|k: int| 0 <= k < lines@.len() && lines@[k] == n;
                if k >= j0 {
                    assert(result@[result@.len() - 1].has(n));
                } else {
                    assert(covers(old_result, n));
                    let q = choose|q: int| 0 <= q < old_result.len() && (#[trigger] old_result[q]).has(n);
                    assert(result@[q].has(n));
                }
            }
        }
        assert(lines_of(result@) =~= values_of(lines@));
    }
    result
}


/// Ordered by first line.
pub open spec fn sorted_by_start(s: Seq<LineRange>) -> bool {
    forall|i: int, j: int| #![trigger s[i], s[j]] 0 <= i < j < s.len() ==> s[i].lo() <= s[j].lo()
}

pub proof fn lemma_lines_insert(s: Seq<LineRange>, pos: int, x: LineRange)
    requires
        0 <= pos <= s.len(),
    ensures
        lines_of(s.insert(pos, x)) == lines_of(s).union(x.line_set()),
{
    let t = s.insert(pos, x);
    assert forall|n: int| #[trigger] lines_of(t).contains(n) <==> lines_of(s).union(
        x.line_set(),
    ).contains(n) by {
        if covers(t, n) {
            let q = choose|q: int| 0 <= q < t.len() && (#[trigger] t[q]).has(n);
            if q < pos {
                assert(s[q].has(n));
            } else if q > pos {
                assert(s[q - 1].has(n));
            }
        }
        if covers(s, n) {
            let q = choose|q: int| 0 <= q < s.len() && (#[trigger] s[q]).has(n);
            if q < pos {
                assert(t[q].has(n));
            } else {
                assert(t[q + 1].has(n));
            }
        }
        if x.has(n) {
            assert(t[pos].has(n));
        }
    }
    assert(lines_of(t) =~= lines_of(s).union(x.line_set()));
}

pub proof fn lemma_lines_push(s: Seq<LineRange>, x: LineRange)
    ensures
        lines_of(s.push(x)) == lines_of(s).union(x.line_set()),
{
    assert(s.push(x) =~= s.insert(s.len() as int, x));
    lemma_lines_insert(s, s.len() as int, x);
}

/// Inserts `x` after every range that starts no later than it.
pub open spec fn insert_by_start(s: Seq<LineRange>, x: LineRange) -> Seq<LineRange>
    decreases s.len(),
{
    if s.len() == 0 || s.last().lo() <= x.lo() {
        s.push(x)
    } else {
        insert_by_start(s.drop_last(), x).push(s.last())
    }
}

/// The stable sort of `s` by first line.
pub open spec fn stable_sort(s: Seq<LineRange>) -> Seq<LineRange>
    decreases s.len(),
{
    if s.len() == 0 {
        s
    } else {
        insert_by_start(stable_sort(s.drop_last()), s.last())
    }
}

proof fn lemma_insert_by_start(s: Seq<LineRange>, x: LineRange, pos: int)
    requires
        sorted_by_start(s),
        0 <= pos <= s.len(),
        forall|k: int| 0 <= k < pos ==> (#[trigger] s[k]).lo() <= x.lo(),
        pos < s.len() ==> s[pos].lo() > x.lo(),
    ensures
        insert_by_start(s, x) == s.insert(pos, x),
    decreases s.len(),
{
    if s.len() == 0 || s.last().lo() <= x.lo() {
        if pos < s.len() {
            assert(s[pos].lo() <= s.last().lo());
        }
        assert(s.push(x) =~= s.insert(pos, x));
    } else {
        let t = s.drop_last();
        assert(sorted_by_start(t)) by {
            assert forall|a: int, b: int| #![trigger t[a], t[b]] 0 <= a < b < t.len() implies t[a].lo() <= t[b].lo() by {
                assert(s[a].lo() <= s[b].lo());
            }
        }
        assert(pos < s.len());
        lemma_insert_by_start(t, x, pos);
        assert(t.insert(pos, x).push(s.last()) =~= s.insert(pos, x));
    }
}

/// The ranges of `ranges`, stably reordered by first line.
pub fn sort_by_start(ranges: &[LineRange]) -> (r: Vec<LineRange>)
    ensures
        r@ == stable_sort(ranges@),
        sorted_by_start(r@),
        all_wf(ranges@) ==> all_wf(r@),
        lines_of(r@) == lines_of(ranges@),
        sorted_by_start(ranges@) ==> r@ == ranges@,
{
    let mut out: Vec<LineRange> = Vec::new();
    let mut i: usize = 0;
    while i < ranges.len()
        invariant
            0 <= i <= ranges@.len(),
            out@ == stable_sort(ranges@.subrange(0, i as int)),
            sorted_by_start(out@),
            all_wf(ranges@) ==> all_wf(out@),
            lines_of(out@) == lines_of(ranges@.subrange(0, i as int)),
            sorted_by_start(ranges@) ==> out@ == ranges@.subrange(0, i as int),
        decreases ranges@.len() - i,
    {
        let x = ranges[i];
        let key = x.start();
        let mut pos: usize = 0;
        while pos < out.len() && out[pos].start() <= key
            invariant
                0 <= pos <= out@.len(),
                forall|k: int| 0 <= k < pos ==> (#[trigger] out@[k]).lo() <= key,
            decreases out@.len() - pos,
        {
            pos = pos + 1;
        }
        let ghost before = out@;
        proof {
            if pos < before.len() {
                assert(before[pos as int].lo() > key);
            }
            lemma_insert_by_start(before, x, pos as int);
            assert(ranges@.subrange(0, i + 1).drop_last() =~= ranges@.subrange(0, i as int));
            if sorted_by_start(ranges@) && pos < before.len() {
                assert(before[pos as int] == ranges@[pos as int]);
                assert(ranges@[pos as int].lo() <= ranges@[i as int].lo());
            }
        }
        out.insert(pos, x);
        proof {
            if sorted_by_start(ranges@) {
                assert(pos == before.len());
                assert(out@ =~= ranges@.subrange(0, i + 1));
            }
            assert(ranges@.subrange(0, i as int + 1) =~= ranges@.subrange(0, i as int).push(x));
            lemma_lines_insert(before, pos as int, x);
            lemma_lines_push(ranges@.subrange(0, i as int), x);
            assert forall|a: int, b: int|
                #![trigger out@[a], out@[b]]
                0 <= a < b < out@.len() implies out@[a].lo() <= out@[b].lo() by {
                if a < pos && b > pos {
                    assert(before[a].lo() <= before[b - 1].lo());
                } else if a > pos {
                    assert(before[a - 1].lo() <= before[b - 1].lo());
                } else if a < pos && b < pos {
                    assert(before[a].lo() <= before[b].lo());
                } else if a == pos && pos < before.len() {
                    assert(before[pos as int].lo() > key);
                    assert(b - 1 >= pos);
                    if b - 1 > pos {
                        assert(before[pos as int].lo() <= before[b - 1].lo());
                    }
                }
            }
        }
        i = i + 1;
    }
    assert(ranges@.subrange(0, ranges@.len() as int) =~= ranges@);
    out
}

proof fn lemma_first_is_least(a: Seq<LineRange>, n: int)
    requires
        canonical(a),
        a.len() > 0,
        covers(a, n),
    ensures
        a[0].lo() <= n,
        n == a[0].hi() + 1 ==> false,
{
    let q = choose|q: int| 0 <= q < a.len() && (#[trigger] a[q]).has(n);
    if q > 0 {
        assert(a[0].hi() + 1 < a[q].lo());
    }
}

proof fn lemma_tail_lines(a: Seq<LineRange>)
    requires
        canonical(a),
        a.len() > 0,
    ensures
        canonical(a.drop_first()),
        lines_of(a.drop_first()) == lines_of(a).difference(a[0].line_set()),
{
    let t = a.drop_first();
    assert forall|i: int| 0 <= i < t.len() implies (#[trigger] t[i]).wf() && t[i].canon() by {
        assert(t[i] == a[i + 1]);
    }
    assert forall|i: int, j: int|
        #![trigger t[i], t[j]]
        0 <= i < j < t.len() implies t[i].hi() + 1 < t[j].lo() by {
        assert(a[i + 1].hi() + 1 < a[j + 1].lo());
    }
    assert forall|n: int| #[trigger] lines_of(t).contains(n) <==> lines_of(a).difference(
        a[0].line_set(),
    ).contains(n) by {
        if covers(t, n) {
            let q = choose|q: int| 0 <= q < t.len() && (#[trigger] t[q]).has(n);
            assert(a[q + 1].has(n));
            assert(a[0].hi() + 1 < a[q + 1].lo());
        }
        if covers(a, n) && !a[0].has(n) {
            let q = choose|q: int| 0 <= q < a.len() && (#[trigger] a[q]).has(n);
            assert(q != 0);
            assert(t[q - 1].has(n));
        }
    }
    assert(lines_of(t) =~= lines_of(a).difference(a[0].line_set()));
}

/// Two canonical lists of ranges that hold the same lines are the same list.
pub proof fn lemma_canonical_unique(a: Seq<LineRange>, b: Seq<LineRange>)
    requires
        canonical(a),
        canonical(b),
        lines_of(a) == lines_of(b),
    ensures
        a == b,
    decreases a.len(),
{
    if a.len() == 0 || b.len() == 0 {
        if a.len() > 0 {
            assert(a[0].has(a[0].lo()));
            assert(lines_of(a).contains(a[0].lo()));
        }
        if b.len() > 0 {
            assert(b[0].has(b[0].lo()));
            assert(lines_of(b).contains(b[0].lo()));
        }
        assert(a =~= b);
    } else {
        let x = a[0];
        let y = b[0];
        assert(x.has(x.lo()) && y.has(y.lo()));
        assert(lines_of(a).contains(x.lo()));
        assert(lines_of(b).contains(y.lo()));
        lemma_first_is_least(a, y.lo());
        lemma_first_is_least(b, x.lo());
        assert(x.lo() == y.lo());
        if x.hi() < y.hi() {
            assert(y.has(x.hi() + 1));
            assert(lines_of(b).contains(x.hi() + 1));
            lemma_first_is_least(a, x.hi() + 1);
        }
        if y.hi() < x.hi() {
            assert(x.has(y.hi() + 1));
            assert(lines_of(a).contains(y.hi() + 1));
            lemma_first_is_least(b, y.hi() + 1);
        }
        assert(x == y);
        assert(x.line_set() == y.line_set());
        lemma_tail_lines(a);
        lemma_tail_lines(b);
        lemma_canonical_unique(a.drop_first(), b.drop_first());
        assert(a =~= b) by {
            assert forall|i: int| 0 <= i < a.len() implies a[i] == b[i] by {
                if i > 0 {
                    assert(a[i] == a.drop_first()[i - 1]);
                    assert(b[i] == b.drop_first()[i - 1]);
                }
            }
        }
    }
}

/// Shifting by `a` and then by `b` keeps at least the lines that one shift
/// by `a + b` gives, for offsets of one sign and an insertion point outside
/// the range that the first shift leaves on the same side of the range.
pub proof fn law_shift_composes(r: LineRange, p: u32, a: i32, b: i32)
    requires
        r.wf(),
        r.lo() >= 1,
        (a >= 0 && b >= 0) || (a <= 0 && b <= 0),
        i32::MIN <= a + b <= i32::MAX,
        !(r.lo() < p <= r.hi()),
        r.hi() < p || r.lo() + a >= p,
    ensures
        opt_lines(shifted(r, p as int, (a + b) as int)).subset_of(
            opt_lines(
                match shifted(r, p as int, a as int) {
                    Some(r1) => shifted(r1, p as int, b as int),
                    None => None,
                },
            ),
        ),
{
    broadcast use lemma_span;

    let once = shifted(r, p as int, (a + b) as int);
    let first = shifted(r, p as int, a as int);
    if let Some(c) = once {
        assert(first is Some);
        let r1 = first->Some_0;
        let second = shifted(r1, p as int, b as int);
        assert(second == once);
    }
}

} // verus!
