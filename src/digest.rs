use vstd::prelude::*;

verus! {

/// Cleavage rule of a protease.
pub struct Enzyme {
    /// Residues next to which the enzyme cuts.
    pub cleave: Vec<u8>,
    /// A residue on the other side of the site that blocks the cut.
    pub restrict: Option<u8>,
    /// The enzyme cuts after a cleavage residue (true) or before it (false).
    pub c_terminal: bool,
}

/// Bounds on the peptides that a digest keeps.
#[derive(Clone, Copy, Debug)]
pub struct DigestLimits {
    pub missed_cleavages: usize,
    pub min_len: usize,
    pub max_len: usize,
}

/// Whether the enzyme cuts between positions `b - 1` and `b` of `s`.
pub open spec fn is_cut(cleave: Seq<u8>, restrict: Option<u8>, c_terminal: bool, s: Seq<u8>, b: int) -> bool {
    1 <= b < s.len() && if c_terminal {
        cleave.contains(s[b - 1]) && restrict != Some(s[b])
    } else {
        cleave.contains(s[b]) && restrict != Some(s[b - 1])
    }
}

/// The cut positions below `upto`, ascending.
pub open spec fn cuts(cleave: Seq<u8>, restrict: Option<u8>, c_terminal: bool, s: Seq<u8>, upto: int) -> Seq<usize>
    decreases upto,
{
    if upto <= 0 {
        Seq::empty()
    } else if is_cut(cleave, restrict, c_terminal, s, upto - 1) {
        cuts(cleave, restrict, c_terminal, s, upto - 1).push((upto - 1) as usize)
    } else {
        cuts(cleave, restrict, c_terminal, s, upto - 1)
    }
}

/// The ends of the fully cleaved pieces of `s`: zero, each cut, and the length.
pub open spec fn boundaries(e: Enzyme, s: Seq<u8>) -> Seq<usize> {
    if s.len() == 0 {
        Seq::empty()
    } else {
        seq![0usize] + cuts(e.cleave@, e.restrict, e.c_terminal, s, s.len() as int) + seq![s.len() as usize]
    }
}

/// Whether the span `[a, b)` has a length within the limits.
pub open spec fn fits(lim: DigestLimits, a: int, b: int) -> bool {
    lim.min_len <= b - a <= lim.max_len
}

/// The kept spans that start at boundary `p` and end at one of the
/// following `k` boundaries, nearest first.
pub open spec fn spans_at(bounds: Seq<usize>, lim: DigestLimits, p: int, k: int) -> Seq<(usize, usize)>
    decreases k,
{
    if k <= 0 {
        Seq::empty()
    } else {
        let rest = spans_at(bounds, lim, p, k - 1);
        if p + k < bounds.len() && fits(lim, bounds[p] as int, bounds[p + k] as int) {
            rest.push((bounds[p], bounds[p + k]))
        } else {
            rest
        }
    }
}

proof fn lemma_spans_at_stable(bounds: Seq<usize>, lim: DigestLimits, p: int, m: int, k: int)
    requires
        0 <= m <= k,
        p + m + 1 >= bounds.len(),
    ensures
        spans_at(bounds, lim, p, k) == spans_at(bounds, lim, p, m),
    decreases k,
{
    if k > m {
        lemma_spans_at_stable(bounds, lim, p, m, k - 1);
    }
}

/// The kept spans that start at one of the first `p` boundaries, by start.
pub open spec fn spans_upto(bounds: Seq<usize>, lim: DigestLimits, p: int) -> Seq<(usize, usize)>
    decreases p,
{
    if p <= 0 {
        Seq::empty()
    } else {
        spans_upto(bounds, lim, p - 1) + spans_at(bounds, lim, p - 1, lim.missed_cleavages + 1)
    }
}

/// The peptides of a digest of `s`, as spans `[start, end)`.
pub open spec fn digest_spans(e: Enzyme, lim: DigestLimits, s: Seq<u8>) -> Seq<(usize, usize)> {
    let b = boundaries(e, s);
    spans_upto(b, lim, b.len() as int)
}

proof fn lemma_cuts_shape(cleave: Seq<u8>, restrict: Option<u8>, c_terminal: bool, s: Seq<u8>, upto: int)
    requires
        0 <= upto <= s.len(),
        s.len() <= usize::MAX,
    ensures
        forall|i: int|
            0 <= i < cuts(cleave, restrict, c_terminal, s, upto).len() ==> 1 <= #[trigger] cuts(
                cleave,
                restrict,
                c_terminal,
                s,
                upto,
            )[i] < upto,
        forall|i: int, j: int|
            0 <= i < j < cuts(cleave, restrict, c_terminal, s, upto).len() ==> #[trigger] cuts(
                cleave,
                restrict,
                c_terminal,
                s,
                upto,
            )[i] < #[trigger] cuts(cleave, restrict, c_terminal, s, upto)[j],
    decreases upto,
{
    if upto > 0 {
        lemma_cuts_shape(cleave, restrict, c_terminal, s, upto - 1);
        let prev = cuts(cleave, restrict, c_terminal, s, upto - 1);
        let cur = cuts(cleave, restrict, c_terminal, s, upto);
        if is_cut(cleave, restrict, c_terminal, s, upto - 1) {
            assert(cur == prev.push((upto - 1) as usize));
            assert forall|i: int| 0 <= i < cur.len() implies 1 <= #[trigger] cur[i] < upto by {
                if i < prev.len() {
                    assert(cur[i] == prev[i]);
                }
            }
            assert forall|i: int, j: int| 0 <= i < j < cur.len() implies #[trigger] cur[i] < #[trigger] cur[j] by {
                assert(cur[i] == prev[i]);
                if j < prev.len() {
                    assert(cur[j] == prev[j]);
                }
            }
        }
    }
}

/// The boundaries of a sequence ascend strictly from zero to its length.
proof fn lemma_boundaries_ascend(e: Enzyme, s: Seq<u8>)
    requires
        s.len() <= usize::MAX,
    ensures
        forall|i: int, j: int|
            0 <= i < j < boundaries(e, s).len() ==> #[trigger] boundaries(e, s)[i] < #[trigger] boundaries(e, s)[j],
        forall|i: int| 0 <= i < boundaries(e, s).len() ==> #[trigger] boundaries(e, s)[i] <= s.len(),
{
    if s.len() > 0 {
        let c = cuts(e.cleave@, e.restrict, e.c_terminal, s, s.len() as int);
        lemma_cuts_shape(e.cleave@, e.restrict, e.c_terminal, s, s.len() as int);
        let b = boundaries(e, s);
        assert(b == seq![0usize] + c + seq![s.len() as usize]);
        assert forall|i: int| 0 <= i < b.len() implies #[trigger] b[i] <= s.len() by {
            if 0 < i < b.len() - 1 {
                assert(b[i] == c[i - 1]);
            }
        }
        assert forall|i: int, j: int| 0 <= i < j < b.len() implies #[trigger] b[i] < #[trigger] b[j] by {
            if 0 < i {
                assert(b[i] == c[i - 1]);
            }
            if j < b.len() - 1 {
                assert(b[j] == c[j - 1]);
            }
        }
    }
}

proof fn lemma_spans_at_valid(bounds: Seq<usize>, lim: DigestLimits, p: int, k: int, n: int)
    requires
        0 <= p,
        forall|i: int, j: int| 0 <= i < j < bounds.len() ==> #[trigger] bounds[i] < #[trigger] bounds[j],
        forall|i: int| 0 <= i < bounds.len() ==> #[trigger] bounds[i] <= n,
    ensures
        forall|i: int|
            0 <= i < spans_at(bounds, lim, p, k).len() ==> (#[trigger] spans_at(bounds, lim, p, k)[i]).0
                < spans_at(bounds, lim, p, k)[i].1 <= n,
    decreases k,
{
    if k > 0 {
        lemma_spans_at_valid(bounds, lim, p, k - 1, n);
        let prev = spans_at(bounds, lim, p, k - 1);
        let cur = spans_at(bounds, lim, p, k);
        if p + k < bounds.len() && fits(lim, bounds[p] as int, bounds[p + k] as int) {
            assert forall|i: int| 0 <= i < cur.len() implies (#[trigger] cur[i]).0 < cur[i].1 <= n by {
                if i < prev.len() {
                    assert(cur[i] == prev[i]);
                }
            }
        }
    }
}

proof fn lemma_spans_upto_valid(bounds: Seq<usize>, lim: DigestLimits, p: int, n: int)
    requires
        forall|i: int, j: int| 0 <= i < j < bounds.len() ==> #[trigger] bounds[i] < #[trigger] bounds[j],
        forall|i: int| 0 <= i < bounds.len() ==> #[trigger] bounds[i] <= n,
    ensures
        forall|i: int|
            0 <= i < spans_upto(bounds, lim, p).len() ==> (#[trigger] spans_upto(bounds, lim, p)[i]).0
                < spans_upto(bounds, lim, p)[i].1 <= n,
    decreases p,
{
    if p > 0 {
        lemma_spans_upto_valid(bounds, lim, p - 1, n);
        lemma_spans_at_valid(bounds, lim, p - 1, lim.missed_cleavages + 1, n);
        let a = spans_upto(bounds, lim, p - 1);
        let b = spans_at(bounds, lim, p - 1, lim.missed_cleavages + 1);
        assert forall|i: int| 0 <= i < (a + b).len() implies (#[trigger] (a + b)[i]).0 < (a + b)[i].1 <= n by {
            if i < a.len() {
                assert((a + b)[i] == a[i]);
            } else {
                assert((a + b)[i] == b[i - a.len()]);
            }
        }
    }
}

/// Every peptide span of a digest is non-empty and lies within the sequence.
pub proof fn lemma_digest_spans_valid(e: Enzyme, lim: DigestLimits, s: Seq<u8>)
    requires
        s.len() <= usize::MAX,
    ensures
        forall|i: int|
            0 <= i < digest_spans(e, lim, s).len() ==> (#[trigger] digest_spans(e, lim, s)[i]).0
                < digest_spans(e, lim, s)[i].1 <= s.len(),
{
    lemma_boundaries_ascend(e, s);
    let b = boundaries(e, s);
    lemma_spans_upto_valid(b, lim, b.len() as int, s.len() as int);
}

fn contains_byte(v: &Vec<u8>, c: u8) -> (r: bool)
    ensures
        r == v@.contains(c),
{
    let mut i: usize = 0;
    while i < v.len()
        invariant
            i <= v@.len(),
            forall|j: int| 0 <= j < i ==> v@[j] != c,
        decreases v@.len() - i,
    {
        if v[i] == c {
            return true;
        }
        i = i + 1;
    }
    false
}

impl Enzyme {
    /// Trypsin: cuts after K or R, but not before P.
    pub fn trypsin() -> (r: Enzyme)
        ensures
            r.cleave@ == seq![75u8, 82u8],
            r.restrict == Some(80u8),
            r.c_terminal,
    {
        // K, R; P
        Enzyme { cleave: vec![75u8, 82u8], restrict: Some(80u8), c_terminal: true }
    }

    /// Ends of the fully cleaved pieces of a protein sequence: zero, each
    /// cleavage site in ascending order, and the sequence length. An empty
    /// sequence has none.
    pub fn boundaries(&self, s: &Vec<u8>) -> (r: Vec<usize>)
        ensures
            r@ == boundaries(*self, s@),
    {
        let n = s.len();
        if n == 0 {
            return Vec::new();
        }
        let mut cut: Vec<usize> = Vec::new();
        let mut b: usize = 0;
        while b < n
            invariant
                n == s@.len(),
                b <= n,
                cut@ == cuts(self.cleave@, self.restrict, self.c_terminal, s@, b as int),
            decreases n - b,
        {
            let is = if b >= 1 {
                if self.c_terminal {
                    contains_byte(&self.cleave, s[b - 1]) && self.restrict != Some(s[b])
                } else {
                    contains_byte(&self.cleave, s[b]) && self.restrict != Some(s[b - 1])
                }
            } else {
                false
            };
            if is {
                cut.push(b);
            }
            b = b + 1;
        }
        let mut r: Vec<usize> = Vec::new();
        r.push(0);
        let mut i: usize = 0;
        while i < cut.len()
            invariant
                i <= cut@.len(),
                r@ == seq![0usize] + cut@.subrange(0, i as int),
            decreases cut@.len() - i,
        {
            r.push(cut[i]);
            assert(cut@.subrange(0, i + 1) =~= cut@.subrange(0, i as int).push(cut@[i as int]));
            i = i + 1;
        }
        r.push(n);
        assert(cut@.subrange(0, cut@.len() as int) =~= cut@);
        r
    }

    /// Digests a protein sequence: every run of consecutive fully cleaved
    /// pieces with at most `missed_cleavages` sites inside it whose length is
    /// within the limits, as spans `[start, end)`, ordered by start and then
    /// by end.
    pub fn digest(&self, s: &Vec<u8>, lim: DigestLimits) -> (r: Vec<(usize, usize)>)
        ensures
            r@ == digest_spans(*self, lim, s@),
    {
        let bounds = self.boundaries(s);
        let mut r: Vec<(usize, usize)> = Vec::new();
        let mut p: usize = 0;
        while p < bounds.len()
            invariant
                bounds@ == boundaries(*self, s@),
                p <= bounds@.len(),
                r@ == spans_upto(bounds@, lim, p as int),
            decreases bounds@.len() - p,
        {
            let ghost before = r@;
            let mut k: usize = 1;
            while k <= lim.missed_cleavages && k < bounds.len() - p
                invariant
                    p < bounds@.len(),
                    1 <= k <= bounds@.len() - p,
                    k <= lim.missed_cleavages + 1,
                    r@ == before + spans_at(bounds@, lim, p as int, k - 1),
                decreases bounds@.len() - p - k,
            {
                let a = bounds[p];
                let b = bounds[p + k];
                if b >= a && lim.min_len <= b - a && b - a <= lim.max_len {
                    r.push((a, b));
                }
                k = k + 1;
            }
            if k > lim.missed_cleavages && k < bounds.len() - p {
                let a = bounds[p];
                let b = bounds[p + k];
                if b >= a && lim.min_len <= b - a && b - a <= lim.max_len {
                    r.push((a, b));
                }
            } else {
                proof {
                    lemma_spans_at_stable(bounds@, lim, p as int, k - 1, lim.missed_cleavages + 1);
                }
            }
            p = p + 1;
        }
        r
    }
}

} // verus!
