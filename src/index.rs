use vstd::prelude::*;
use vstd::arithmetic::div_mod::lemma_div_is_ordered;
use crate::fragment::{
    all_peptides_valid, collect_fragments, is_fragment_of, is_ion, sequences, Fragment,
};
use crate::mass::peptide_mass;

verus! {

/// One bin of the fragment-mass axis: the span `[start, end)` of the index's
/// fragments whose mass falls in it, and the least and greatest precursor
/// mass among them (an empty bin has `min_precursor > max_precursor`).
#[derive(Clone, Copy, Debug, PartialEq, Eq)]
pub struct Bucket {
    pub start: usize,
    pub end: usize,
    pub min_precursor: u128,
    pub max_precursor: u128,
}

/// Fragments grouped into equal-width bins of fragment mass, each bin
/// recording the precursor masses it holds so that whole bins can be skipped.
pub struct FragmentIndex {
    pub fragments: Vec<Fragment>,
    pub buckets: Vec<Bucket>,
    pub bucket_width: u128,
}

/// Whether fragment `f` has a mass in `[fl, fh]` and a precursor mass in `[lo, hi]`.
pub open spec fn in_window(f: Fragment, fl: u128, fh: u128, lo: u128, hi: u128) -> bool {
    fl <= f.mz <= fh && lo <= f.precursor <= hi
}

/// Peptide handles of the first `upto` fragments that lie in the window, in order.
pub open spec fn window_hits(frags: Seq<Fragment>, fl: u128, fh: u128, lo: u128, hi: u128, upto: int) -> Seq<usize>
    decreases upto,
{
    if upto <= 0 {
        Seq::empty()
    } else if in_window(frags[upto - 1], fl, fh, lo, hi) {
        window_hits(frags, fl, fh, lo, hi, upto - 1).push(frags[upto - 1].peptide)
    } else {
        window_hits(frags, fl, fh, lo, hi, upto - 1)
    }
}

proof fn lemma_hits_stable(frags: Seq<Fragment>, fl: u128, fh: u128, lo: u128, hi: u128, m1: int, m2: int)
    requires
        0 <= m1 <= m2,
        forall|k: int| m1 <= k < m2 ==> !in_window(#[trigger] frags[k], fl, fh, lo, hi),
    ensures
        window_hits(frags, fl, fh, lo, hi, m2) == window_hits(frags, fl, fh, lo, hi, m1),
    decreases m2 - m1,
{
    if m2 > m1 {
        lemma_hits_stable(frags, fl, fh, lo, hi, m1, m2 - 1);
    }
}

proof fn lemma_push_keeps(s: Seq<usize>, x: usize)
    ensures
        forall|y: usize| s.contains(y) ==> #[trigger] s.push(x).contains(y),
        s.push(x).contains(x),
{
    assert forall|y: usize| s.contains(y) implies #[trigger] s.push(x).contains(y) by {
        let k = choose|k: int| 0 <= k < s.len() && s[k] == y;
        assert(s.push(x)[k] == y);
    }
    assert(s.push(x)[s.len() as int] == x);
}

impl FragmentIndex {
    /// Fragments before bucket `c` lie in earlier buckets.
    proof fn lemma_before_bucket(&self, c: int, k: int)
        requires
            self.wf(),
            0 <= c < self.buckets@.len(),
            0 <= k < self.buckets@[c].start,
        ensures
            exists|d: int| 0 <= d < c && (#[trigger] self.buckets@[d]).start <= k < self.buckets@[d].end,
        decreases c,
    {
        if c > 0 {
            assert(self.buckets@[c - 1].end == self.buckets@[c].start);
            if k < self.buckets@[c - 1].start {
                self.lemma_before_bucket(c - 1, k);
                let d = choose|d: int| 0 <= d < c - 1 && (#[trigger] self.buckets@[d]).start <= k < self.buckets@[d].end;
                assert(0 <= d < c);
            } else {
                assert(self.buckets@[c - 1].start <= k < self.buckets@[c - 1].end);
            }
        }
    }

    /// Fragments after bucket `c` lie in later buckets.
    proof fn lemma_after_bucket(&self, c: int, k: int)
        requires
            self.wf(),
            0 <= c < self.buckets@.len(),
            self.buckets@[c].end <= k < self.fragments@.len(),
        ensures
            exists|d: int| c < d < self.buckets@.len() && (#[trigger] self.buckets@[d]).start <= k < self.buckets@[d].end,
        decreases self.buckets@.len() - c,
    {
        if c < self.buckets@.len() - 1 {
            assert(self.buckets@[c].end == self.buckets@[c + 1].start);
            if k >= self.buckets@[c + 1].end {
                self.lemma_after_bucket(c + 1, k);
                let d = choose|d: int|
                    c + 1 < d < self.buckets@.len() && (#[trigger] self.buckets@[d]).start <= k < self.buckets@[d].end;
                assert(c < d);
            } else {
                assert(self.buckets@[c + 1].start <= k < self.buckets@[c + 1].end);
            }
        }
    }

    /// Well-formed: every bucket spans fragments whose mass falls in its bin
    /// and whose precursor mass lies within the bucket's precursor bounds.
    pub open spec fn wf(&self) -> bool {
        &&& self.bucket_width > 0
        &&& self.buckets@.len() > 0
        &&& self.buckets@[0].start == 0
        &&& self.buckets@[self.buckets@.len() - 1].end == self.fragments@.len()
        &&& forall|b: int|
            0 <= b < self.buckets@.len() - 1 ==> (#[trigger] self.buckets@[b]).end == self.buckets@[b + 1].start
        &&& forall|b: int|
            0 <= b < self.buckets@.len() ==> {
                let bk = #[trigger] self.buckets@[b];
                &&& bk.start <= bk.end <= self.fragments@.len()
                &&& forall|k: int|
                    bk.start <= k < bk.end ==> {
                        &&& (#[trigger] self.fragments@[k]).mz / self.bucket_width == b
                        &&& bk.min_precursor <= self.fragments@[k].precursor <= bk.max_precursor
                    }
            }
    }

    /// Whether `f` is stored in the bucket of its own mass.
    pub open spec fn holds(&self, f: Fragment) -> bool {
        let b = f.mz / self.bucket_width;
        &&& b < self.buckets@.len()
        &&& exists|k: int|
            self.buckets@[b as int].start <= k < self.buckets@[b as int].end && self.fragments@[k] == f
    }

    /// Whether the index stores a fragment of peptide `p` within the window.
    pub open spec fn has_fragment_of(&self, p: usize, fl: u128, fh: u128, lo: u128, hi: u128) -> bool {
        exists|k: int|
            0 <= k < self.fragments@.len() && self.fragments@[k].peptide == p && in_window(
                #[trigger] self.fragments@[k],
                fl,
                fh,
                lo,
                hi,
            )
    }

    /// Whether `r` holds the peptide of every stored fragment within the window.
    pub open spec fn covers(&self, fl: u128, fh: u128, lo: u128, hi: u128, r: Seq<usize>) -> bool {
        forall|b: int, k: int|
            #![trigger self.buckets@[b], self.fragments@[k]]
            0 <= b < self.buckets@.len() && self.buckets@[b].start <= k < self.buckets@[b].end
                && in_window(self.fragments@[k], fl, fh, lo, hi) ==> r.contains(self.fragments@[k].peptide)
    }

    /// Whether the index stores every b and y ion of `peptides` with a mass
    /// in `[min_mz, max_mz]`.
    pub open spec fn indexes(&self, peptides: Seq<Seq<u8>>, min_mz: u128, max_mz: u128) -> bool {
        forall|f: Fragment| is_fragment_of(peptides, min_mz as int, max_mz as int, f) ==> #[trigger] self.holds(f)
    }

    /// Handles of the peptides that have a fragment with a mass in
    /// `[fl, fh]` and a precursor mass in `[lo, hi]`, once per such fragment.
    /// Bins outside the mass window are not visited, nor those whose
    /// precursor bounds miss `[lo, hi]`.
    pub fn probe(&self, fl: u128, fh: u128, lo: u128, hi: u128) -> (r: Vec<usize>)
        requires
            self.wf(),
        ensures
            forall|j: int|
                0 <= j < r@.len() ==> self.has_fragment_of(r@[j], fl, fh, lo, hi),
            self.covers(fl, fh, lo, hi, r@),
            r@ == window_hits(self.fragments@, fl, fh, lo, hi, self.fragments@.len() as int),
    {
        let mut r: Vec<usize> = Vec::new();
        let nb = self.buckets.len();
        let w = self.bucket_width;
        if fl > fh || nb == 0 || fl / w >= nb as u128 {
            proof {
                assert forall|b: int, k: int|
 #![trigger self.buckets@[b], self.fragments@[k]]
                    0 <= b < self.buckets@.len() && self.buckets@[b].start <= k < self.buckets@[b].end
                        implies !in_window(self.fragments@[k], fl, fh, lo, hi) by {
                    let f = self.fragments@[k];
                    assert(f.mz / w == b);
                    if fl <= f.mz {
                        lemma_div_is_ordered(fl as int, f.mz as int, w as int);
                    }
                }
                assert forall|k: int| 0 <= k < self.fragments@.len() implies !in_window(
                    #[trigger] self.fragments@[k],
                    fl,
                    fh,
                    lo,
                    hi,
                ) by {
                    if k >= self.buckets@[0].end {
                        self.lemma_after_bucket(0, k);
                    }
                }
                lemma_hits_stable(self.fragments@, fl, fh, lo, hi, 0, self.fragments@.len() as int);
            }
            return r;
        }
        proof {
            lemma_div_is_ordered(fl as int, fh as int, w as int);
        }
        let b0 = (fl / w) as usize;
        let last: usize = if fh / w < nb as u128 { (fh / w) as usize } else { nb - 1 };
        let mut pos: usize = self.buckets[b0].start;
        proof {
            assert forall|k: int| 0 <= k < pos implies !in_window(#[trigger] self.fragments@[k], fl, fh, lo, hi) by {
                self.lemma_before_bucket(b0 as int, k);
                let d = choose|d: int| 0 <= d < b0 && (#[trigger] self.buckets@[d]).start <= k < self.buckets@[d].end;
                let f = self.fragments@[k];
                assert(f.mz / w == d);
                if fl <= f.mz {
                    lemma_div_is_ordered(fl as int, f.mz as int, w as int);
                }
            }
            lemma_hits_stable(self.fragments@, fl, fh, lo, hi, 0, pos as int);
        }
        let mut b = b0;
        while b <= last
            invariant
                self.wf(),
                nb == self.buckets@.len(),
                w == self.bucket_width,
                b0 <= b <= last + 1,
                last < nb,
                last == fh / w || last == nb - 1,
                pos <= self.fragments@.len(),
                r@ == window_hits(self.fragments@, fl, fh, lo, hi, pos as int),
                b <= last ==> pos == self.buckets@[b as int].start,
                b > b0 ==> pos == self.buckets@[b - 1].end,
                forall|j: int|
                    0 <= j < r@.len() ==> self.has_fragment_of(r@[j], fl, fh, lo, hi),
                forall|c: int, k: int|
 #![trigger self.buckets@[c], self.fragments@[k]]
                    b0 <= c < b && self.buckets@[c].start <= k < self.buckets@[c].end && in_window(
                        self.fragments@[k],
                        fl,
                        fh,
                        lo,
                        hi,
                    ) ==> r@.contains(self.fragments@[k].peptide),
            decreases last + 1 - b,
        {
            let bk = self.buckets[b];
            if !(bk.max_precursor < lo || bk.min_precursor > hi) {
                let mut k = bk.start;
                while k < bk.end
                    invariant
                        self.wf(),
                        nb == self.buckets@.len(),
                        b < nb,
                        bk == self.buckets@[b as int],
                        bk.start <= k <= bk.end,
                        bk.end <= self.fragments@.len(),
                        r@ == window_hits(self.fragments@, fl, fh, lo, hi, k as int),
                        forall|j: int|
                            0 <= j < r@.len() ==> self.has_fragment_of(r@[j], fl, fh, lo, hi),
                        forall|c: int, k: int|
 #![trigger self.buckets@[c], self.fragments@[k]]
                            b0 <= c < b && self.buckets@[c].start <= k < self.buckets@[c].end
                                && in_window(self.fragments@[k], fl, fh, lo, hi) ==> r@.contains(
                                self.fragments@[k].peptide,
                            ),
                        forall|t: int|
                            bk.start <= t < k && in_window(#[trigger] self.fragments@[t], fl, fh, lo, hi)
                                ==> r@.contains(self.fragments@[t].peptide),
                    decreases bk.end - k,
                {
                    let f = self.fragments[k];
                    if fl <= f.mz && f.mz <= fh && lo <= f.precursor && f.precursor <= hi {
                        let ghost before = r@;
                        r.push(f.peptide);
                        proof {
                            lemma_push_keeps(before, f.peptide);
                            assert forall|j: int| 0 <= j < r@.len() implies self.has_fragment_of(r@[j], fl, fh, lo, hi) by {
                                if j < before.len() {
                                    assert(r@[j] == before[j]);
                                } else {
                                    assert(self.fragments@[k as int] == f);
                                    assert(in_window(self.fragments@[k as int], fl, fh, lo, hi));
                                }
                            }
                        }
                    }
                    k = k + 1;
                }
            } else {
                proof {
                    assert forall|k: int|
                        bk.start <= k < bk.end implies !in_window(#[trigger] self.fragments@[k], fl, fh, lo, hi) by {
                        assert(bk == self.buckets@[b as int]);
                    }
                    lemma_hits_stable(self.fragments@, fl, fh, lo, hi, bk.start as int, bk.end as int);
                }
            }
            pos = bk.end;
            proof {
                if b < last {
                    assert(self.buckets@[b as int].end == self.buckets@[b + 1].start);
                }
            }
            b = b + 1;
        }
        proof {
            assert forall|c: int, k: int|
 #![trigger self.buckets@[c], self.fragments@[k]]
                0 <= c < self.buckets@.len() && self.buckets@[c].start <= k < self.buckets@[c].end
                    && in_window(self.fragments@[k], fl, fh, lo, hi) implies r@.contains(
                self.fragments@[k].peptide,
            ) by {
                let f = self.fragments@[k];
                assert(f.mz / w == c);
                lemma_div_is_ordered(fl as int, f.mz as int, w as int);
                lemma_div_is_ordered(f.mz as int, fh as int, w as int);
            }
            assert forall|k: int| pos <= k < self.fragments@.len() implies !in_window(
                #[trigger] self.fragments@[k],
                fl,
                fh,
                lo,
                hi,
            ) by {
                self.lemma_after_bucket(last as int, k);
                let d = choose|d: int|
                    last < d < self.buckets@.len() && (#[trigger] self.buckets@[d]).start <= k < self.buckets@[d].end;
                let f = self.fragments@[k];
                assert(f.mz / w == d);
                if f.mz <= fh {
                    lemma_div_is_ordered(f.mz as int, fh as int, w as int);
                }
            }
            lemma_hits_stable(self.fragments@, fl, fh, lo, hi, pos as int, self.fragments@.len() as int);
        }
        r
    }

    /// Builds the index over `frags` with bins of `bucket_width` covering
    /// `[0, max_mz]`.
    pub fn build(frags: &Vec<Fragment>, bucket_width: u128, max_mz: u128) -> (r: FragmentIndex)
        requires
            bucket_width > 0,
            max_mz / bucket_width < usize::MAX,
            forall|k: int| 0 <= k < frags@.len() ==> (#[trigger] frags@[k]).mz <= max_mz,
        ensures
            r.wf(),
            r.bucket_width == bucket_width,
            r.buckets@.len() == max_mz / bucket_width + 1,
            forall|k: int| 0 <= k < frags@.len() ==> r.holds(#[trigger] frags@[k]),
    {
        let nb: usize = (max_mz / bucket_width) as usize + 1;
        // group the fragments by bin
        let mut lists: Vec<Vec<Fragment>> = Vec::new();
        let mut b: usize = 0;
        while b < nb
            invariant
                b <= nb,
                lists@.len() == b,
                forall|t: int| 0 <= t < b ==> (#[trigger] lists@[t])@.len() == 0,
            decreases nb - b,
        {
            lists.push(Vec::new());
            b = b + 1;
        }
        let mut i: usize = 0;
        while i < frags.len()
            invariant
                nb == max_mz / bucket_width + 1,
                bucket_width > 0,
                forall|k: int| 0 <= k < frags@.len() ==> (#[trigger] frags@[k]).mz <= max_mz,
                i <= frags@.len(),
                lists@.len() == nb,
                forall|t: int, k: int|
                    0 <= t < nb && 0 <= k < lists@[t]@.len() ==> (#[trigger] lists@[t]@[k]).mz / bucket_width == t,
                forall|k: int|
                    0 <= k < i ==> (#[trigger] lists@[(frags@[k].mz / bucket_width) as int]@).contains(frags@[k]),
            decreases frags@.len() - i,
        {
            let f = frags[i];
            proof {
                lemma_div_is_ordered(f.mz as int, max_mz as int, bucket_width as int);
            }
            let t = (f.mz / bucket_width) as usize;
            let ghost old_lists = lists@;
            assert(t < nb);
            let mut inner: Vec<Fragment> = Vec::new();
            std::mem::swap(&mut inner, &mut lists[t]);
            inner.push(f);
            std::mem::swap(&mut inner, &mut lists[t]);
            assert(lists@.len() == old_lists.len());
            assert(lists@[t as int]@ == old_lists[t as int]@.push(f));
            assert(forall|u: int| 0 <= u < nb && u != t ==> lists@[u] == old_lists[u]);
            proof {
                assert forall|k: int|
                    0 <= k < i + 1 implies (#[trigger] lists@[(frags@[k].mz / bucket_width) as int]@).contains(
                    frags@[k],
                ) by {
                    let u = (frags@[k].mz / bucket_width) as int;
                    lemma_div_is_ordered(frags@[k].mz as int, max_mz as int, bucket_width as int);
                    assert(lists@[u] == old_lists[u] || u == t);
                    if k < i && u != t {
                        let j = choose|j: int| 0 <= j < old_lists[u]@.len() && old_lists[u]@[j] == frags@[k];
                        assert(lists@[u]@[j] == frags@[k]);
                    } else if k < i {
                        let j = choose|j: int| 0 <= j < old_lists[u]@.len() && old_lists[u]@[j] == frags@[k];
                        assert(lists@[u]@[j] == frags@[k]);
                    } else {
                        assert(lists@[t as int]@[old_lists[t as int]@.len() as int] == f);
                    }
                }
            }
            i = i + 1;
        }
        // lay the bins out one after another
        let mut fragments: Vec<Fragment> = Vec::new();
        let mut buckets: Vec<Bucket> = Vec::new();
        let mut b: usize = 0;
        while b < nb
            invariant
                bucket_width > 0,
                b <= nb,
                lists@.len() == nb,
                buckets@.len() == b,
                b > 0 ==> buckets@[0].start == 0,
                b > 0 ==> buckets@[b - 1].end == fragments@.len(),
                b == 0 ==> fragments@.len() == 0,
                forall|t: int| 0 <= t < b - 1 ==> (#[trigger] buckets@[t]).end == buckets@[t + 1].start,
                forall|t: int, k: int|
                    0 <= t < nb && 0 <= k < lists@[t]@.len() ==> (#[trigger] lists@[t]@[k]).mz / bucket_width == t,
                forall|t: int|
                    0 <= t < b ==> {
                        let bk = #[trigger] buckets@[t];
                        &&& bk.start <= bk.end <= fragments@.len()
                        &&& bk.end - bk.start == lists@[t]@.len()
                        &&& forall|k: int|
                            bk.start <= k < bk.end ==> {
                                &&& fragments@[k] == lists@[t]@[k - bk.start]
                                &&& bk.min_precursor <= fragments@[k].precursor <= bk.max_precursor
                            }
                    },
            decreases nb - b,
        {
            let start = fragments.len();
            let ghost before = fragments@;
            let mut lo: u128 = u128::MAX;
            let mut hi: u128 = 0;
            let mut j: usize = 0;
            while j < lists[b].len()
                invariant
                    b < nb,
                    lists@.len() == nb,
                    j <= lists@[b as int]@.len(),
                    fragments@.len() == start + j,
                    forall|k: int| 0 <= k < start ==> fragments@[k] == before[k],
                    before.len() == start,
                    forall|k: int|
                        start <= k < start + j ==> {
                            &&& fragments@[k] == lists@[b as int]@[k - start]
                            &&& lo <= fragments@[k].precursor <= hi
                        },
                decreases lists@[b as int]@.len() - j,
            {
                let f = lists[b][j];
                if f.precursor < lo {
                    lo = f.precursor;
                }
                if f.precursor > hi {
                    hi = f.precursor;
                }
                fragments.push(f);
                j = j + 1;
            }
            let ghost old_buckets = buckets@;
            buckets.push(Bucket { start, end: fragments.len(), min_precursor: lo, max_precursor: hi });
            proof {
                assert forall|t: int| 0 <= t < b implies (#[trigger] buckets@[t]).end == buckets@[t + 1].start by {
                    assert(buckets@[t] == old_buckets[t]);
                    if t < b - 1 {
                        assert(buckets@[t + 1] == old_buckets[t + 1]);
                    }
                }
                assert forall|t: int| 0 <= t < b + 1 implies {
                    let bk = #[trigger] buckets@[t];
                    &&& bk.start <= bk.end <= fragments@.len()
                    &&& bk.end - bk.start == lists@[t]@.len()
                    &&& forall|k: int|
                        bk.start <= k < bk.end ==> {
                            &&& fragments@[k] == lists@[t]@[k - bk.start]
                            &&& bk.min_precursor <= fragments@[k].precursor <= bk.max_precursor
                        }
                } by {
                    let bk = buckets@[t];
                    if t < b {
                        assert(buckets@[t] == old_buckets[t]);
                        assert(bk.end <= before.len());
                        assert forall|k: int| bk.start <= k < bk.end implies {
                            &&& fragments@[k] == lists@[t]@[k - bk.start]
                            &&& bk.min_precursor <= fragments@[k].precursor <= bk.max_precursor
                        } by {
                            assert(fragments@[k] == before[k]);
                        }
                    } else {
                        assert(t == b);
                        assert(bk.start == start);
                        assert(bk.end == start + lists@[t]@.len());
                        assert forall|k: int| bk.start <= k < bk.end implies {
                            &&& fragments@[k] == lists@[t]@[k - bk.start]
                            &&& bk.min_precursor <= fragments@[k].precursor <= bk.max_precursor
                        } by {}
                    }
                }
            }
            b = b + 1;
        }
        let r = FragmentIndex { fragments, buckets, bucket_width };
        proof {
            assert forall|b: int| 0 <= b < r.buckets@.len() implies {
                let bk = #[trigger] r.buckets@[b];
                &&& bk.start <= bk.end <= r.fragments@.len()
                &&& forall|k: int|
                    bk.start <= k < bk.end ==> {
                        &&& (#[trigger] r.fragments@[k]).mz / r.bucket_width == b
                        &&& bk.min_precursor <= r.fragments@[k].precursor <= bk.max_precursor
                    }
            } by {
                let bk = r.buckets@[b];
                assert forall|k: int| bk.start <= k < bk.end implies {
                    &&& (#[trigger] r.fragments@[k]).mz / r.bucket_width == b
                    &&& bk.min_precursor <= r.fragments@[k].precursor <= bk.max_precursor
                } by {
                    assert(r.fragments@[k] == lists@[b]@[k - bk.start]);
                }
            }
            assert forall|k: int| 0 <= k < frags@.len() implies r.holds(#[trigger] frags@[k]) by {
                let f = frags@[k];
                let t = (f.mz / bucket_width) as int;
                lemma_div_is_ordered(f.mz as int, max_mz as int, bucket_width as int);
                assert(lists@[t]@.contains(f));
                let j = choose|j: int| 0 <= j < lists@[t]@.len() && lists@[t]@[j] == f;
                let bk = r.buckets@[t];
                assert(r.fragments@[bk.start + j] == f);
            }
        }
        r
    }
}

impl FragmentIndex {
    /// Builds the fragment index of a peptide table: every b and y ion with a
    /// mass in `[min_mz, max_mz]`, tagged with its peptide's handle (its
    /// position in the table), in bins of `bucket_width`. `None` when a
    /// peptide holds a residue outside the canonical alphabet.
    pub fn from_peptides(peptides: &Vec<Vec<u8>>, min_mz: u128, max_mz: u128, bucket_width: u128) -> (r: Option<
        FragmentIndex,
    >)
        requires
            bucket_width > 0,
            max_mz / bucket_width < usize::MAX,
        ensures
            match r {
                Some(idx) => all_peptides_valid(sequences(peptides@)) && idx.wf() && idx.bucket_width
                    == bucket_width && idx.indexes(sequences(peptides@), min_mz, max_mz),
                None => !all_peptides_valid(sequences(peptides@)),
            },
    {
        let frags = match collect_fragments(peptides, min_mz, max_mz) {
            Some(f) => f,
            None => {
                return None;
            },
        };
        let idx = FragmentIndex::build(&frags, bucket_width, max_mz);
        proof {
            let seqs = sequences(peptides@);
            assert forall|f: Fragment| is_fragment_of(seqs, min_mz as int, max_mz as int, f) implies #[trigger] idx.holds(
                f,
            ) by {
                assert(frags@.contains(f));
                let k = choose|k: int| 0 <= k < frags@.len() && frags@[k] == f;
                assert(idx.holds(frags@[k]));
            }
        }
        Some(idx)
    }
}

/// Every bucket's precursor bounds enclose the precursor mass of each
/// fragment it stores.
pub proof fn lemma_bucket_precursor_bounds(idx: FragmentIndex, b: int, k: int)
    requires
        idx.wf(),
        0 <= b < idx.buckets@.len(),
        idx.buckets@[b].start <= k < idx.buckets@[b].end,
    ensures
        idx.buckets@[b].min_precursor <= idx.fragments@[k].precursor <= idx.buckets@[b].max_precursor,
{
    assert(idx.fragments@[k].mz / idx.bucket_width == b);
}

/// A probe of an index built from a peptide table, at a window that holds
/// one of peptide `p`'s b or y ions and `p`'s precursor mass, returns `p`.
pub proof fn lemma_probe_finds_peptide(
    idx: FragmentIndex,
    peptides: Seq<Seq<u8>>,
    min_mz: u128,
    max_mz: u128,
    p: usize,
    ion: u128,
    fl: u128,
    fh: u128,
    lo: u128,
    hi: u128,
    r: Seq<usize>,
)
    requires
        idx.wf(),
        idx.indexes(peptides, min_mz, max_mz),
        idx.covers(fl, fh, lo, hi, r),
        0 <= p < peptides.len(),
        is_ion(peptides[p as int], ion as int),
        min_mz <= ion <= max_mz,
        fl <= ion <= fh,
        lo <= peptide_mass(peptides[p as int]) <= hi,
    ensures
        r.contains(p),
{
    let f = Fragment { mz: ion, peptide: p, precursor: peptide_mass(peptides[p as int]) as u128 };
    assert(is_fragment_of(peptides, min_mz as int, max_mz as int, f));
    assert(idx.holds(f));
    let b = f.mz / idx.bucket_width;
    let k = choose|k: int|
        idx.buckets@[b as int].start <= k < idx.buckets@[b as int].end && idx.fragments@[k] == f;
    assert(in_window(idx.fragments@[k], fl, fh, lo, hi));
}

} // verus!
