use vstd::prelude::*;

verus! {

/// A map from string keys to values that keeps the order in which keys
/// were first inserted. Its view is the list of `(key, value)` pairs.
#[derive(Debug, PartialEq, Eq)]
pub struct StrMap<V> {
    entries: Vec<(String, V)>,
}

pub open spec fn has_key<V>(s: Seq<(Seq<char>, V)>, k: Seq<char>) -> bool {
    exists|i: int| 0 <= i < s.len() && (#[trigger] s[i]).0 == k
}

/// Every key appears once.
pub open spec fn distinct_keys<V>(s: Seq<(Seq<char>, V)>) -> bool {
    forall|i: int, j: int| #![trigger s[i], s[j]] 0 <= i < j < s.len() ==> s[i].0 != s[j].0
}

/// The value stored under `k`, if any.
pub open spec fn lookup<V>(s: Seq<(Seq<char>, V)>, k: Seq<char>) -> Option<V> {
    if has_key(s, k) {
        Some(s[choose|i: int| 0 <= i < s.len() && (#[trigger] s[i]).0 == k].1)
    } else {
        None
    }
}

/// The pairs of `s` whose key satisfies `keep`, in order.
pub open spec fn filter_keys<V>(s: Seq<(Seq<char>, V)>, keep: spec_fn(Seq<char>) -> bool) -> Seq<
    (Seq<char>, V),
>
    decreases s.len(),
{
    if s.len() == 0 {
        s
    } else {
        let rest = filter_keys(s.drop_last(), keep);
        if keep(s.last().0) {
            rest.push(s.last())
        } else {
            rest
        }
    }
}

pub proof fn lemma_lookup_at<V>(s: Seq<(Seq<char>, V)>, i: int)
    requires
        distinct_keys(s),
        0 <= i < s.len(),
    ensures
        lookup(s, s[i].0) == Some(s[i].1),
{
    assert(has_key(s, s[i].0));
    let j = choose|j: int| 0 <= j < s.len() && (#[trigger] s[j]).0 == s[i].0;
    if j != i {
        if j < i {
            assert(s[j].0 != s[i].0);
        } else {
            assert(s[i].0 != s[j].0);
        }
    }
}

proof fn lemma_filter_keys<V>(s: Seq<(Seq<char>, V)>, keep: spec_fn(Seq<char>) -> bool)
    requires
        distinct_keys(s),
    ensures
        distinct_keys(filter_keys(s, keep)),
        forall|k: Seq<char>| #[trigger]
            has_key(filter_keys(s, keep), k) <==> has_key(s, k) && keep(k),
        forall|k: Seq<char>| #[trigger]
            lookup(filter_keys(s, keep), k) == if keep(k) {
                lookup(s, k)
            } else {
                None
            },
    decreases s.len(),
{
    if s.len() > 0 {
        let t = s.drop_last();
        assert forall|i: int, j: int|
            #![trigger t[i], t[j]]
            0 <= i < j < t.len() implies t[i].0 != t[j].0 by {
            assert(s[i].0 != s[j].0);
        }
        lemma_filter_keys(t, keep);
        let f = filter_keys(s, keep);
        let ft = filter_keys(t, keep);
        let last = s.last();
        assert(!has_key(t, last.0)) by {
            if has_key(t, last.0) {
                let i = choose|i: int| 0 <= i < t.len() && (#[trigger] t[i]).0 == last.0;
                assert(s[i].0 != s[s.len() - 1].0);
            }
        }
        assert forall|k: Seq<char>| #[trigger] has_key(s, k) <==> has_key(t, k) || k == last.0 by {
            if has_key(s, k) {
                let i = choose|i: int| 0 <= i < s.len() && (#[trigger] s[i]).0 == k;
                if i < t.len() {
                    assert(t[i].0 == k);
                }
            }
            if has_key(t, k) {
                let i = choose|i: int| 0 <= i < t.len() && (#[trigger] t[i]).0 == k;
                assert(s[i].0 == k);
            }
            if k == last.0 {
                assert(s[s.len() - 1].0 == k);
            }
        }
        assert forall|k: Seq<char>| #[trigger] lookup(s, k) == if k == last.0 {
            Some(last.1)
        } else {
            lookup(t, k)
        } by {
            if k == last.0 {
                lemma_lookup_at(s, s.len() - 1);
            } else if has_key(t, k) {
                let i = choose|i: int| 0 <= i < t.len() && (#[trigger] t[i]).0 == k;
                lemma_lookup_at(t, i);
                lemma_lookup_at(s, i);
            }
        }
        if keep(last.0) {
            assert(!has_key(ft, last.0));
            assert forall|i: int, j: int|
                #![trigger f[i], f[j]]
                0 <= i < j < f.len() implies f[i].0 != f[j].0 by {
                if j == f.len() - 1 {
                    assert(ft[i].0 != last.0) by {
                        if ft[i].0 == last.0 {
                            assert(has_key(ft, last.0));
                        }
                    }
                } else {
                    assert(ft[i].0 != ft[j].0);
                }
            }
            assert forall|k: Seq<char>| #[trigger] has_key(f, k) <==> has_key(ft, k) || k
                == last.0 by {
                if has_key(f, k) {
                    let i = choose|i: int| 0 <= i < f.len() && (#[trigger] f[i]).0 == k;
                    if i < ft.len() {
                        assert(ft[i].0 == k);
                    }
                }
                if has_key(ft, k) {
                    let i = choose|i: int| 0 <= i < ft.len() && (#[trigger] ft[i]).0 == k;
                    assert(f[i].0 == k);
                }
                if k == last.0 {
                    assert(f[f.len() - 1].0 == k);
                }
            }
            assert forall|k: Seq<char>| #[trigger] lookup(f, k) == if k == last.0 {
                Some(last.1)
            } else {
                lookup(ft, k)
            } by {
                if k == last.0 {
                    lemma_lookup_at(f, f.len() - 1);
                } else if has_key(ft, k) {
                    let i = choose|i: int| 0 <= i < ft.len() && (#[trigger] ft[i]).0 == k;
                    lemma_lookup_at(ft, i);
                    lemma_lookup_at(f, i);
                }
            }
        }
    }
}

/// Whether `k` is one of the strings of `keep`.
pub open spec fn member_of(keep: Seq<String>) -> spec_fn(Seq<char>) -> bool {
    |k: Seq<char>| exists|j: int| 0 <= j < keep.len() && (#[trigger] keep[j])@ == k
}

/// The pairs of a vector, with each key read as characters.
pub open spec fn pairs<V>(v: Seq<(String, V)>) -> Seq<(Seq<char>, V)> {
    v.map_values(|e: (String, V)| (e.0@, e.1))
}

pub proof fn lemma_filter_keys_pub<V>(s: Seq<(Seq<char>, V)>, keep: spec_fn(Seq<char>) -> bool)
    requires
        distinct_keys(s),
    ensures
        distinct_keys(filter_keys(s, keep)),
        forall|k: Seq<char>| #[trigger]
            has_key(filter_keys(s, keep), k) <==> has_key(s, k) && keep(k),
        forall|k: Seq<char>| #[trigger]
            lookup(filter_keys(s, keep), k) == if keep(k) {
                lookup(s, k)
            } else {
                None
            },
{
    lemma_filter_keys(s, keep);
}

pub proof fn lemma_has_key_filter<V>(
    s: Seq<(Seq<char>, V)>,
    keep: spec_fn(Seq<char>) -> bool,
    k: Seq<char>,
)
    requires
        distinct_keys(s),
    ensures
        has_key(filter_keys(s, keep), k) <==> has_key(s, k) && keep(k),
{
    lemma_filter_keys(s, keep);
}

/// Two lists with the same keys in the same places hold the same keys.
pub proof fn lemma_same_keys<V, W>(a: Seq<(Seq<char>, V)>, b: Seq<(Seq<char>, W)>)
    requires
        a.len() == b.len(),
        forall|q: int| 0 <= q < a.len() ==> (#[trigger] a[q]).0 == b[q].0,
    ensures
        forall|k: Seq<char>| #[trigger] has_key(a, k) == has_key(b, k),
{
    assert forall|k: Seq<char>| #[trigger] has_key(a, k) == has_key(b, k) by {
        if has_key(a, k) {
            let q = choose|q: int| 0 <= q < a.len() && (#[trigger] a[q]).0 == k;
            assert(b[q].0 == k);
        }
        if has_key(b, k) {
            let q = choose|q: int| 0 <= q < b.len() && (#[trigger] b[q]).0 == k;
            assert(a[q].0 == k);
        }
    }
}

/// After storing under `k`, the keys are the old ones and `k`.
pub proof fn lemma_store_keys<V>(before: Seq<(Seq<char>, V)>, after: Seq<(Seq<char>, V)>, k: Seq<char>)
    requires
        (exists|i: int| 0 <= i < before.len() && before[i].0 == k && after.len() == before.len() && forall|q: int|
            0 <= q < before.len() ==> (#[trigger] after[q]).0 == before[q].0) || (after.drop_last() == before
            && after.len() == before.len() + 1 && after.last().0 == k),
    ensures
        forall|x: Seq<char>| #[trigger] has_key(after, x) == (has_key(before, x) || x == k),
{
    assert forall|x: Seq<char>| #[trigger] has_key(after, x) == (has_key(before, x) || x == k) by {
        if has_key(after, x) {
            let q = choose|q: int| 0 <= q < after.len() && (#[trigger] after[q]).0 == x;
            if q < before.len() && after.len() == before.len() {
                assert(before[q].0 == x);
            } else if q < before.len() {
                assert(after.drop_last()[q] == after[q]);
                assert(before[q].0 == x);
            }
        }
        if has_key(before, x) {
            let q = choose|q: int| 0 <= q < before.len() && (#[trigger] before[q]).0 == x;
            if after.len() == before.len() && exists|i: int| 0 <= i < before.len() && before[i].0 == k && after.len() == before.len() && forall|q: int|
                0 <= q < before.len() ==> (#[trigger] after[q]).0 == before[q].0 {
                assert(after[q].0 == x);
            } else {
                assert(after.drop_last()[q] == after[q]);
                assert(after[q].0 == x);
            }
        }
        if x == k {
            if after.len() == before.len() && exists|i: int| 0 <= i < before.len() && before[i].0 == k && after.len() == before.len() && forall|q: int|
                0 <= q < before.len() ==> (#[trigger] after[q]).0 == before[q].0 {
                let i = choose|i: int| 0 <= i < before.len() && before[i].0 == k && after.len() == before.len() && forall|q: int|
                    0 <= q < before.len() ==> (#[trigger] after[q]).0 == before[q].0;
                assert(after[i].0 == k);
            } else {
                assert(after[after.len() - 1].0 == k);
            }
        }
    }
}

/// Storing under `k` leaves the other keys' values alone.
pub proof fn lemma_lookup_other<V>(
    before: Seq<(Seq<char>, V)>,
    after: Seq<(Seq<char>, V)>,
    k: Seq<char>,
    v: V,
    other: Seq<char>,
)
    requires
        distinct_keys(before),
        distinct_keys(after),
        other != k,
        (exists|i: int| 0 <= i < before.len() && before[i].0 == k && after == before.update(i, (k, v)))
            || after == before.push((k, v)),
    ensures
        lookup(after, other) == lookup(before, other),
{
    if has_key(before, other) {
        let i = choose|i: int| 0 <= i < before.len() && (#[trigger] before[i]).0 == other;
        lemma_lookup_at(before, i);
        assert(after[i] == before[i]);
        lemma_lookup_at(after, i);
    } else {
        if has_key(after, other) {
            let i = choose|i: int| 0 <= i < after.len() && (#[trigger] after[i]).0 == other;
            if i < before.len() {
                assert(before[i].0 == other);
            }
        }
    }
}

impl<V> View for StrMap<V> {
    type V = Seq<(Seq<char>, V)>;

    closed spec fn view(&self) -> Seq<(Seq<char>, V)> {
        pairs(self.entries@)
    }
}

impl<V> StrMap<V> {
    #[verifier::type_invariant]
    spec fn inv(self) -> bool {
        distinct_keys(self@)
    }

    pub fn new() -> (r: Self)
        ensures
            r@ == Seq::<(Seq<char>, V)>::empty(),
    {
        let r = StrMap { entries: Vec::new() };
        assert(r@ =~= Seq::<(Seq<char>, V)>::empty());
        r
    }

    pub fn len(&self) -> (r: usize)
        ensures
            r == self@.len(),
            distinct_keys(self@),
    {
        proof {
            use_type_invariant(self);
        }
        self.entries.len()
    }

    pub fn is_empty(&self) -> (r: bool)
        ensures
            r == (self@.len() == 0),
    {
        self.entries.len() == 0
    }

    pub fn key_at(&self, i: usize) -> (r: &String)
        requires
            i < self@.len(),
        ensures
            r@ == self@[i as int].0,
    {
        &self.entries[i].0
    }

    pub fn value_at(&self, i: usize) -> (r: &V)
        requires
            i < self@.len(),
        ensures
            *r == self@[i as int].1,
    {
        &self.entries[i].1
    }

    /// Position of `k`, if present.
    pub fn find(&self, k: &str) -> (r: Option<usize>)
        ensures
            match r {
                Some(i) => i < self@.len() && self@[i as int].0 == k@,
                None => !has_key(self@, k@),
            },
    {
        let mut i: usize = 0;
        while i < self.entries.len()
            invariant
                0 <= i <= self@.len(),
                self@.len() == self.entries@.len(),
                forall|j: int| 0 <= j < i ==> (#[trigger] self@[j]).0 != k@,
            decreases self@.len() - i,
        {
            if crate::text::str_eq(self.entries[i].0.as_str(), k) {
                return Some(i);
            }
            i = i + 1;
        }
        None
    }

    pub fn contains_key(&self, k: &str) -> (r: bool)
        ensures
            r == has_key(self@, k@),
    {
        self.find(k).is_some()
    }

    pub fn get(&self, k: &str) -> (r: Option<&V>)
        ensures
            match r {
                Some(v) => lookup(self@, k@) == Some(*v),
                None => lookup(self@, k@) is None,
            },
    {
        proof {
            use_type_invariant(self);
        }
        match self.find(k) {
            Some(i) => {
                proof {
                    lemma_lookup_at(self@, i as int);
                }
                Some(&self.entries[i].1)
            },
            None => None,
        }
    }

    /// Replaces the value at position `i`.
    pub fn set_value_at(&mut self, i: usize, v: V)
        requires
            i < old(self)@.len(),
        ensures
            final(self)@ == old(self)@.update(i as int, (old(self)@[i as int].0, v)),
    {
        proof {
            use_type_invariant(&*self);
        }
        let ghost before = self@;
        let mut es: Vec<(String, V)> = Vec::new();
        core::mem::swap(&mut es, &mut self.entries);
        let k = es[i].0.clone();
        es.set(i, (k, v));
        assert(pairs(es@) =~= before.update(
            i as int,
            (before[i as int].0, v),
        ));
        proof {
            assert forall|a: int, b: int|
                #![trigger es@[a], es@[b]]
                0 <= a < b < es@.len() implies es@[a].0@ != es@[b].0@ by {
                assert(before[a].0 != before[b].0);
            }
        }
        self.entries = es;
    }

    /// Stores `v` under `k`: in place when `k` is present, else at the end.
    pub fn insert(&mut self, k: String, v: V)
        ensures
            has_key(old(self)@, k@) ==> exists|i: int|
                0 <= i < old(self)@.len() && old(self)@[i].0 == k@ && final(self)@ == old(self)@.update(i, (k@, v)),
            !has_key(old(self)@, k@) ==> final(self)@ == old(self)@.push((k@, v)),
            lookup(final(self)@, k@) == Some(v),
    {
        proof {
            use_type_invariant(&*self);
        }
        let ghost before = self@;
        let found = self.find(k.as_str());
        let mut es: Vec<(String, V)> = Vec::new();
        core::mem::swap(&mut es, &mut self.entries);
        assert(pairs(es@) == before);
        match found {
            Some(i) => {
                es.set(i, (k, v));
                assert(pairs(es@) =~= before.update(i as int, (before[i as int].0, v)));
                proof {
                    let p = pairs(es@);
                    assert forall|a: int, b: int|
                        #![trigger p[a], p[b]]
                        0 <= a < b < p.len() implies p[a].0 != p[b].0 by {
                        assert(before[a].0 != before[b].0);
                    }
                    lemma_lookup_at(p, i as int);
                }
                self.entries = es;
            },
            None => {
                es.push((k, v));
                assert(pairs(es@) =~= before.push((k@, v)));
                proof {
                    let p = pairs(es@);
                    assert forall|a: int, b: int|
                        #![trigger p[a], p[b]]
                        0 <= a < b < p.len() implies p[a].0 != p[b].0 by {
                        if b == before.len() {
                            assert(before[a].0 != k@) by {
                                if before[a].0 == k@ {
                                    assert(has_key(before, k@));
                                }
                            }
                        } else {
                            assert(before[a].0 != before[b].0);
                        }
                    }
                    lemma_lookup_at(p, before.len() as int);
                }
                self.entries = es;
            },
        }
    }

    /// Drops every pair whose key is not among `keep`.
    pub fn retain_keys(&mut self, keep: &Vec<String>)
        ensures
            final(self)@ == filter_keys(old(self)@, member_of(keep@)),
            forall|k: Seq<char>| #[trigger]
                lookup(final(self)@, k) == if exists|j: int|
                    0 <= j < keep@.len() && (#[trigger] keep@[j])@ == k {
                    lookup(old(self)@, k)
                } else {
                    None
                },
    {
        proof {
            use_type_invariant(&*self);
        }
        let ghost before = self@;
        let mut kept: Vec<(String, V)> = Vec::new();
        let mut taken: Vec<(String, V)> = Vec::new();
        core::mem::swap(&mut taken, &mut self.entries);
        let ghost all = taken@;
        assert(pairs(all) == before);
        while taken.len() > 0
            invariant
                taken@.len() <= all.len(),
                taken@ == all.subrange(all.len() - taken@.len(), all.len() as int),
                pairs(all) == before,
                pairs(kept@) == filter_keys(
                    before.subrange(0, all.len() - taken@.len()),
                    member_of(keep@),
                ),
            decreases taken@.len(),
        {
            let ghost done = all.len() - taken@.len();
            let e = taken.remove(0);
            assert(e == all[done]);
            let mut found = false;
            let mut j: usize = 0;
            while j < keep.len()
                invariant
                    0 <= j <= keep@.len(),
                    found == exists|q: int| 0 <= q < j && (#[trigger] keep@[q])@ == e.0@,
                decreases keep@.len() - j,
            {
                if crate::text::str_eq(keep[j].as_str(), e.0.as_str()) {
                    found = true;
                }
                j = j + 1;
            }
            let ghost kept_before = kept@;
            assert(j == keep@.len());
            assert(found == exists|q: int| 0 <= q < keep@.len() && (#[trigger] keep@[q])@ == e.0@);
            assert(member_of(keep@)(e.0@) == found);
            let ghost s1 = before.subrange(0, done + 1);
            assert(s1.drop_last() =~= before.subrange(0, done));
            assert(s1.last() == (e.0@, e.1));
            assert(filter_keys(s1, member_of(keep@)) == if member_of(keep@)(s1.last().0) {
                filter_keys(s1.drop_last(), member_of(keep@)).push(s1.last())
            } else {
                filter_keys(s1.drop_last(), member_of(keep@))
            });
            if found {
                kept.push(e);
                assert(pairs(kept@) =~= pairs(kept_before).push((e.0@, e.1)));
            } else {
                assert(pairs(kept@) == filter_keys(before.subrange(0, done), member_of(keep@)));
                assert(!member_of(keep@)(s1.last().0));
                assert(pairs(kept@) == filter_keys(s1, member_of(keep@)));
            }
            assert(taken@ =~= all.subrange(all.len() - taken@.len(), all.len() as int));
        }
        assert(before.subrange(0, all.len() as int) =~= before);
        proof {
            lemma_filter_keys(before, member_of(keep@));
        }
        self.entries = kept;
    }
}

} // verus!
