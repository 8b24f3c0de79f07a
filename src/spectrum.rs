use vstd::prelude::*;
use crate::scoring::NEUTRON;

verus! {

/// Positions below `k`, ascending, of the peaks whose m/z lies in `[lo, hi]`.
pub open spec fn windowed(mz: Seq<u64>, lo: u64, hi: u64, k: int) -> Seq<usize>
    decreases k,
{
    if k <= 0 {
        Seq::empty()
    } else if lo <= mz[k - 1] <= hi {
        windowed(mz, lo, hi, k - 1).push((k - 1) as usize)
    } else {
        windowed(mz, lo, hi, k - 1)
    }
}

/// Whether peak `a` ranks above peak `b`: more intense, or as intense and earlier.
pub open spec fn outranks(intensity: Seq<u64>, a: int, b: int) -> bool {
    intensity[a] > intensity[b] || (intensity[a] == intensity[b] && a < b)
}

/// Number of the first `upto` peaks of `w` that outrank peak `p`.
pub open spec fn rank_in(w: Seq<usize>, intensity: Seq<u64>, p: int, upto: int) -> nat
    decreases upto,
{
    if upto <= 0 {
        0
    } else {
        rank_in(w, intensity, p, upto - 1) + if outranks(intensity, w[upto - 1] as int, p) {
            1nat
        } else {
            0nat
        }
    }
}

/// The first `k` peaks of `w`, in order, that rank among the `n` most intense of `w`.
pub open spec fn top_of(w: Seq<usize>, intensity: Seq<u64>, n: usize, k: int) -> Seq<usize>
    decreases k,
{
    if k <= 0 {
        Seq::empty()
    } else if rank_in(w, intensity, w[k - 1] as int, w.len() as int) < n {
        top_of(w, intensity, n, k - 1).push(w[k - 1])
    } else {
        top_of(w, intensity, n, k - 1)
    }
}

/// The peaks that processing keeps, in input order.
pub open spec fn picked(mz: Seq<u64>, intensity: Seq<u64>, lo: u64, hi: u64, max_peaks: usize) -> Seq<usize> {
    let w = windowed(mz, lo, hi, mz.len() as int);
    top_of(w, intensity, max_peaks, w.len() as int)
}

proof fn lemma_windowed_shape(mz: Seq<u64>, lo: u64, hi: u64, k: int)
    requires
        0 <= k <= mz.len(),
    ensures
        windowed(mz, lo, hi, k).len() <= k,
        forall|j: int| 0 <= j < windowed(mz, lo, hi, k).len() ==> #[trigger] windowed(mz, lo, hi, k)[j] < k,
    decreases k,
{
    if k > 0 {
        lemma_windowed_shape(mz, lo, hi, k - 1);
    }
}

proof fn lemma_rank_bound(w: Seq<usize>, intensity: Seq<u64>, p: int, upto: int)
    ensures
        rank_in(w, intensity, p, upto) <= if upto < 0 { 0 } else { upto },
    decreases upto,
{
    if upto > 0 {
        lemma_rank_bound(w, intensity, p, upto - 1);
    }
}

/// Positions, ascending, of the peaks whose m/z lies in `[lo, hi]`.
pub fn in_window_peaks(mz: &Vec<u64>, lo: u64, hi: u64) -> (r: Vec<usize>)
    ensures
        r@ == windowed(mz@, lo, hi, mz@.len() as int),
{
    let mut w: Vec<usize> = Vec::new();
    let mut i: usize = 0;
    while i < mz.len()
        invariant
            i <= mz@.len(),
            w@ == windowed(mz@, lo, hi, i as int),
        decreases mz@.len() - i,
    {
        if lo <= mz[i] && mz[i] <= hi {
            w.push(i);
        }
        i = i + 1;
    }
    w
}

/// Of the peaks at positions `w`, those among the `n` most intense (the
/// earlier of two equally intense peaks ranking first), in the order of `w`.
pub fn top_peaks(w: &Vec<usize>, intensity: &Vec<u64>, n: usize) -> (r: Vec<usize>)
    requires
        forall|j: int| 0 <= j < w@.len() ==> #[trigger] w@[j] < intensity@.len(),
    ensures
        r@ == top_of(w@, intensity@, n, w@.len() as int),
{
    let mut r: Vec<usize> = Vec::new();
    let mut k: usize = 0;
    while k < w.len()
        invariant
            forall|j: int| 0 <= j < w@.len() ==> #[trigger] w@[j] < intensity@.len(),
            k <= w@.len(),
            r@ == top_of(w@, intensity@, n, k as int),
        decreases w@.len() - k,
    {
        let p = w[k];
        let mut rank: usize = 0;
        let mut q: usize = 0;
        while q < w.len()
            invariant
                forall|j: int| 0 <= j < w@.len() ==> #[trigger] w@[j] < intensity@.len(),
                p < intensity@.len(),
                q <= w@.len(),
                rank == rank_in(w@, intensity@, p as int, q as int),
            decreases w@.len() - q,
        {
            proof {
                lemma_rank_bound(w@, intensity@, p as int, q as int);
            }
            let o = w[q];
            if intensity[o] > intensity[p] || (intensity[o] == intensity[p] && o < p) {
                rank = rank + 1;
            }
            q = q + 1;
        }
        if rank < n {
            r.push(p);
        }
        k = k + 1;
    }
    r
}

/// Picks the peaks of a spectrum to score: those with m/z in `[lo, hi]`,
/// and of those the `max_peaks` most intense (the earlier of two equally
/// intense peaks ranking first). The positions come back in input order, so
/// peaks given in ascending m/z stay in ascending m/z.
pub fn pick_peaks(mz: &Vec<u64>, intensity: &Vec<u64>, lo: u64, hi: u64, max_peaks: usize) -> (r: Vec<usize>)
    requires
        mz@.len() == intensity@.len(),
    ensures
        r@ == picked(mz@, intensity@, lo, hi, max_peaks),
{
    let w = in_window_peaks(mz, lo, hi);
    proof {
        lemma_windowed_shape(mz@, lo, hi, mz@.len() as int);
    }
    top_peaks(&w, intensity, max_peaks)
}

/// Whether m/z `b` lies one isotope above m/z `a` at charge `z`: `b − a`
/// is `neutron / z` to within 5 ppm of `b`.
pub open spec fn spaced_at(a: int, b: int, z: int) -> bool {
    let d = (b - a) * z - NEUTRON;
    -5 * b * z <= d * 1_000_000 <= 5 * b * z
}

/// Whether m/z `b` lies one isotope above m/z `a` for a charge from one to three.
pub open spec fn isotope_spaced(a: int, b: int) -> bool {
    spaced_at(a, b, 1) || spaced_at(a, b, 2) || spaced_at(a, b, 3)
}

/// Whether peak `j` is an isotope of an earlier, at least as intense peak.
pub open spec fn is_isotope(mz: Seq<u64>, intensity: Seq<u64>, j: int) -> bool {
    exists|i: int|
        0 <= i < j && isotope_spaced(mz[i] as int, mz[j] as int) && #[trigger] intensity[i] >= intensity[j]
}

/// Positions below `k`, ascending, of the peaks that are not isotopes.
pub open spec fn monoisotopic_upto(mz: Seq<u64>, intensity: Seq<u64>, k: int) -> Seq<usize>
    decreases k,
{
    if k <= 0 {
        Seq::empty()
    } else if !is_isotope(mz, intensity, k - 1) {
        monoisotopic_upto(mz, intensity, k - 1).push((k - 1) as usize)
    } else {
        monoisotopic_upto(mz, intensity, k - 1)
    }
}

fn spaced(a: u64, b: u64) -> (r: bool)
    ensures
        r == isotope_spaced(a as int, b as int),
{
    let a = a as i128;
    let b = b as i128;
    let diff = b - a;
    let d1 = diff - NEUTRON;
    let d2 = diff * 2 - NEUTRON;
    let d3 = diff * 3 - NEUTRON;
    // within 5 ppm of b for charge one, two and three
    let t1 = b * 5;
    let t2 = b * 10;
    let t3 = b * 15;
    let r = (0 - t1 <= d1 * 1_000_000 && d1 * 1_000_000 <= t1) || (0 - t2 <= d2 * 1_000_000 && d2 * 1_000_000
        <= t2) || (0 - t3 <= d3 * 1_000_000 && d3 * 1_000_000 <= t3);
    assert(r == isotope_spaced(a as int, b as int)) by (nonlinear_arith)
        requires
            d1 == (b - a) * 1 - NEUTRON,
            d2 == (b - a) * 2 - NEUTRON,
            d3 == (b - a) * 3 - NEUTRON,
            t1 == b * 5,
            t2 == b * 10,
            t3 == b * 15,
            r == ((0 - t1 <= d1 * 1_000_000 && d1 * 1_000_000 <= t1) || (0 - t2 <= d2 * 1_000_000 && d2
                * 1_000_000 <= t2) || (0 - t3 <= d3 * 1_000_000 && d3 * 1_000_000 <= t3)),
    ;
    r
}

/// Deisotopes a peak list given in ascending m/z: drops every peak that
/// lies one isotope spacing (neutron mass over a charge from one to three,
/// within 5 ppm) above an earlier peak that is at least as intense, and
/// returns the positions of the peaks that remain, in order.
pub fn deisotope(mz: &Vec<u64>, intensity: &Vec<u64>) -> (r: Vec<usize>)
    requires
        mz@.len() == intensity@.len(),
    ensures
        r@ == monoisotopic_upto(mz@, intensity@, mz@.len() as int),
{
    let mut r: Vec<usize> = Vec::new();
    let mut j: usize = 0;
    while j < mz.len()
        invariant
            mz@.len() == intensity@.len(),
            j <= mz@.len(),
            r@ == monoisotopic_upto(mz@, intensity@, j as int),
        decreases mz@.len() - j,
    {
        let mut i: usize = 0;
        let mut iso = false;
        while i < j
            invariant
                mz@.len() == intensity@.len(),
                j < mz@.len(),
                i <= j,
                iso == exists|t: int|
                    0 <= t < i && isotope_spaced(mz@[t] as int, mz@[j as int] as int) && #[trigger] intensity@[t]
                        >= intensity@[j as int],
            decreases j - i,
        {
            if spaced(mz[i], mz[j]) && intensity[i] >= intensity[j] {
                iso = true;
            }
            i = i + 1;
        }
        if !iso {
            r.push(j);
        }
        j = j + 1;
    }
    r
}

proof fn lemma_monoisotopic_shape(mz: Seq<u64>, intensity: Seq<u64>, k: int)
    requires
        0 <= k <= usize::MAX,
    ensures
        forall|x: int| 0 <= x < monoisotopic_upto(mz, intensity, k).len() ==> {
            &&& (#[trigger] monoisotopic_upto(mz, intensity, k)[x]) < k
            &&& !is_isotope(mz, intensity, monoisotopic_upto(mz, intensity, k)[x] as int)
        },
        forall|x: int, y: int|
            0 <= x < y < monoisotopic_upto(mz, intensity, k).len() ==> #[trigger] monoisotopic_upto(mz, intensity, k)[x]
                < #[trigger] monoisotopic_upto(mz, intensity, k)[y],
    decreases k,
{
    if k > 0 {
        lemma_monoisotopic_shape(mz, intensity, k - 1);
        let prev = monoisotopic_upto(mz, intensity, k - 1);
        let cur = monoisotopic_upto(mz, intensity, k);
        if !is_isotope(mz, intensity, k - 1) {
            assert(cur == prev.push((k - 1) as usize));
            assert forall|x: int| 0 <= x < cur.len() implies {
                &&& (#[trigger] cur[x]) < k
                &&& !is_isotope(mz, intensity, cur[x] as int)
            } by {
                if x < prev.len() {
                    assert(cur[x] == prev[x]);
                }
            }
            assert forall|x: int, y: int| 0 <= x < y < cur.len() implies #[trigger] cur[x] < #[trigger] cur[y] by {
                assert(cur[x] == prev[x]);
                if y < prev.len() {
                    assert(cur[y] == prev[y]);
                }
            }
        }
    }
}

/// After deisotoping, of two remaining peaks one isotope spacing apart the
/// heavier is the more intense: every pair that an at least as intense
/// lighter peak would explain as an isotope envelope is gone.
pub proof fn lemma_deisotoped_no_envelope(mz: Seq<u64>, intensity: Seq<u64>, x: int, y: int)
    requires
        mz.len() == intensity.len(),
        mz.len() <= usize::MAX,
        0 <= x < y < monoisotopic_upto(mz, intensity, mz.len() as int).len(),
        isotope_spaced(
            mz[monoisotopic_upto(mz, intensity, mz.len() as int)[x] as int] as int,
            mz[monoisotopic_upto(mz, intensity, mz.len() as int)[y] as int] as int,
        ),
    ensures
        intensity[monoisotopic_upto(mz, intensity, mz.len() as int)[y] as int] > intensity[monoisotopic_upto(
            mz,
            intensity,
            mz.len() as int,
        )[x] as int],
{
    let m = monoisotopic_upto(mz, intensity, mz.len() as int);
    lemma_monoisotopic_shape(mz, intensity, mz.len() as int);
    let a = m[x] as int;
    let b = m[y] as int;
    assert(a < b);
    assert(!is_isotope(mz, intensity, b));
    if intensity[a] >= intensity[b] {
        assert(0 <= a < b && isotope_spaced(mz[a] as int, mz[b] as int) && intensity[a] >= intensity[b]);
    }
}

/// The values of `v` at positions `w`.
pub open spec fn gather(v: Seq<u64>, w: Seq<usize>) -> Seq<u64> {
    Seq::new(w.len(), |i: int| v[w[i] as int])
}

/// Positions `0 .. n`.
pub open spec fn all_positions(n: int) -> Seq<usize> {
    Seq::new(n as nat, |i: int| i as usize)
}

/// The peaks that processing keeps, as positions into the input: first the
/// window `[lo, hi]`, then, if asked, deisotoping among the peaks in the
/// window, then the `max_peaks` most intense of what is left, in input order.
pub open spec fn processed(mz: Seq<u64>, intensity: Seq<u64>, lo: u64, hi: u64, deisotoped: bool, max_peaks: usize) -> Seq<usize> {
    let w = windowed(mz, lo, hi, mz.len() as int);
    let mz_w = gather(mz, w);
    let int_w = gather(intensity, w);
    let d = if deisotoped {
        monoisotopic_upto(mz_w, int_w, w.len() as int)
    } else {
        all_positions(w.len() as int)
    };
    let t = top_of(d, int_w, max_peaks, d.len() as int);
    Seq::new(t.len(), |i: int| w[t[i] as int])
}

fn gather_exec(v: &Vec<u64>, w: &Vec<usize>) -> (r: Vec<u64>)
    requires
        forall|j: int| 0 <= j < w@.len() ==> #[trigger] w@[j] < v@.len(),
    ensures
        r@ == gather(v@, w@),
{
    let mut r: Vec<u64> = Vec::new();
    let mut i: usize = 0;
    while i < w.len()
        invariant
            forall|j: int| 0 <= j < w@.len() ==> #[trigger] w@[j] < v@.len(),
            i <= w@.len(),
            r@ =~= gather(v@, w@).subrange(0, i as int),
        decreases w@.len() - i,
    {
        r.push(v[w[i]]);
        i = i + 1;
    }
    r
}

/// Processes the peak list of a spectrum given in ascending m/z: keeps the
/// peaks with m/z in `[lo, hi]`, deisotopes them if asked, and keeps the
/// `max_peaks` most intense of the rest. Returns their positions in the
/// input, ascending, so the peaks stay in ascending m/z.
pub fn process_peaks(mz: &Vec<u64>, intensity: &Vec<u64>, lo: u64, hi: u64, deisotoped: bool, max_peaks: usize) -> (r: Vec<usize>)
    requires
        mz@.len() == intensity@.len(),
    ensures
        r@ == processed(mz@, intensity@, lo, hi, deisotoped, max_peaks),
{
    let w = in_window_peaks(mz, lo, hi);
    let nw = w.len();
    proof {
        lemma_windowed_shape(mz@, lo, hi, mz@.len() as int);
    }
    let mz_w = gather_exec(mz, &w);
    let int_w = gather_exec(intensity, &w);
    let d = if deisotoped {
        let d = deisotope(&mz_w, &int_w);
        proof {
            lemma_monoisotopic_shape(mz_w@, int_w@, w@.len() as int);
        }
        d
    } else {
        let mut d: Vec<usize> = Vec::new();
        let mut i: usize = 0;
        while i < w.len()
            invariant
                i <= w@.len(),
                d@ =~= all_positions(w@.len() as int).subrange(0, i as int),
            decreases w@.len() - i,
        {
            d.push(i);
            i = i + 1;
        }
        assert(d@ =~= all_positions(w@.len() as int));
        d
    };
    assert(d@ == if deisotoped {
        monoisotopic_upto(mz_w@, int_w@, w@.len() as int)
    } else {
        all_positions(w@.len() as int)
    });
    assert(forall|j: int| 0 <= j < d@.len() ==> #[trigger] d@[j] < int_w@.len());
    let t = top_peaks(&d, &int_w, max_peaks);
    let ghost tv = t@;
    assert(forall|i: int| 0 <= i < tv.len() ==> #[trigger] tv[i] < w@.len()) by {
        lemma_top_of_within(d@, int_w@, max_peaks, d@.len() as int, w@.len() as int);
    }
    let mut r: Vec<usize> = Vec::new();
    let mut i: usize = 0;
    while i < t.len()
        invariant
            tv == t@,
            forall|j: int| 0 <= j < tv.len() ==> #[trigger] tv[j] < w@.len(),
            i <= t@.len(),
            r@ =~= Seq::new(tv.len(), |j: int| w@[tv[j] as int]).subrange(0, i as int),
        decreases t@.len() - i,
    {
        r.push(w[t[i]]);
        i = i + 1;
    }
    assert(r@ =~= Seq::new(tv.len(), |j: int| w@[tv[j] as int]));
    r
}

proof fn lemma_top_of_within(w: Seq<usize>, intensity: Seq<u64>, n: usize, k: int, bound: int)
    requires
        0 <= k <= w.len(),
        forall|j: int| 0 <= j < w.len() ==> #[trigger] w[j] < bound,
    ensures
        forall|i: int| 0 <= i < top_of(w, intensity, n, k).len() ==> #[trigger] top_of(w, intensity, n, k)[i] < bound,
    decreases k,
{
    if k > 0 {
        lemma_top_of_within(w, intensity, n, k - 1, bound);
        let prev = top_of(w, intensity, n, k - 1);
        let cur = top_of(w, intensity, n, k);
        assert forall|i: int| 0 <= i < cur.len() implies #[trigger] cur[i] < bound by {
            if i < prev.len() {
                assert(cur[i] == prev[i]);
            }
        }
    }
}

} // verus!
