use vstd::prelude::*;
use crate::fragment::PROTON;
use crate::index::{window_hits, FragmentIndex};

verus! {

/// Mass difference between one carbon-13 and one carbon-12 atom, in micro-daltons.
pub const NEUTRON: i128 = 1003350;

/// Neutral precursor mass for charge `z` and isotope error `e`, widened by
/// the tolerance offsets `[tol_lo, tol_hi]`: `z·(mz − proton) − e·neutron`.
pub open spec fn precursor_window(mz: int, z: int, e: int, tol_lo: int, tol_hi: int) -> (int, int) {
    let m = z * (mz - PROTON) - e * NEUTRON;
    (m + tol_lo, m + tol_hi)
}

/// The windows of the first `c` charges, each charge with every isotope
/// error from `iso_lo` to `iso_hi` in turn.
pub open spec fn precursor_windows(
    mz: int,
    charges: Seq<u8>,
    iso_lo: int,
    iso_hi: int,
    tol_lo: int,
    tol_hi: int,
    c: int,
) -> Seq<(int, int)>
    decreases c,
{
    if c <= 0 {
        Seq::empty()
    } else {
        precursor_windows(mz, charges, iso_lo, iso_hi, tol_lo, tol_hi, c - 1) + Seq::new(
            (iso_hi - iso_lo + 1) as nat,
            |j: int| precursor_window(mz, charges[c - 1] as int, iso_lo + j, tol_lo, tol_hi),
        )
    }
}

/// Candidate precursor mass windows of a spectrum with precursor m/z `mz`
/// (micro-daltons): for each assumed charge in order, and for each isotope
/// error from `iso_lo` to `iso_hi`, the neutral mass
/// `z·(mz − proton) − e·neutron` widened to `[m + tol_lo, m + tol_hi]`.
pub fn candidate_windows(
    mz: u64,
    charges: &Vec<u8>,
    iso_lo: i8,
    iso_hi: i8,
    tol_lo: i64,
    tol_hi: i64,
) -> (r: Vec<(i128, i128)>)
    requires
        iso_lo <= iso_hi,
    ensures
        r@.map_values(|w: (i128, i128)| (w.0 as int, w.1 as int)) == precursor_windows(
            mz as int,
            charges@,
            iso_lo as int,
            iso_hi as int,
            tol_lo as int,
            tol_hi as int,
            charges@.len() as int,
        ),
{
    let mut r: Vec<(i128, i128)> = Vec::new();
    let mut c: usize = 0;
    while c < charges.len()
        invariant
            iso_lo <= iso_hi,
            c <= charges@.len(),
            r@.map_values(|w: (i128, i128)| (w.0 as int, w.1 as int)) == precursor_windows(
                mz as int,
                charges@,
                iso_lo as int,
                iso_hi as int,
                tol_lo as int,
                tol_hi as int,
                c as int,
            ),
        decreases charges@.len() - c,
    {
        let z = charges[c] as i128;
        let ghost before = r@.map_values(|w: (i128, i128)| (w.0 as int, w.1 as int));
        let ghost row = Seq::new(
            (iso_hi - iso_lo + 1) as nat,
            |j: int| precursor_window(mz as int, charges@[c as int] as int, iso_lo + j, tol_lo as int, tol_hi as int),
        );
        let mut e: i8 = iso_lo;
        let mut done: bool = false;
        while !done
            invariant
                iso_lo <= e <= iso_hi,
                c < charges@.len(),
                z == charges@[c as int],
                row == Seq::new(
                    (iso_hi - iso_lo + 1) as nat,
                    |j: int| precursor_window(mz as int, charges@[c as int] as int, iso_lo + j, tol_lo as int, tol_hi as int),
                ),
                !done ==> r@.map_values(|w: (i128, i128)| (w.0 as int, w.1 as int)) == before + row.subrange(0, e - iso_lo),
                done ==> r@.map_values(|w: (i128, i128)| (w.0 as int, w.1 as int)) == before + row,
            decreases iso_hi - e + if done { 0int } else { 1int },
        {
            assert(0 <= z <= 255);
            assert(0 <= mz <= u64::MAX);
            let d: i128 = mz as i128 - PROTON as i128;
            proof {
                assert(-0x10000000 <= z * d <= 0x1000_0000_0000_0000_0000) by (nonlinear_arith)
                    requires
                        0 <= z <= 255,
                        -0x100000 <= d <= 0x1_0000_0000_0000_0000,
                ;
            }
            let m: i128 = z * d - (e as i128) * NEUTRON;
            let ghost prev = r@;
            r.push((m + tol_lo as i128, m + tol_hi as i128));
            assert(r@.map_values(|w: (i128, i128)| (w.0 as int, w.1 as int)) =~= prev.map_values(
                |w: (i128, i128)| (w.0 as int, w.1 as int),
            ).push((m + tol_lo, m + tol_hi)));
            assert(row[e - iso_lo] == precursor_window(mz as int, z as int, e as int, tol_lo as int, tol_hi as int));
            if e == iso_hi {
                assert(row.subrange(0, e - iso_lo).push(row[e - iso_lo]) =~= row);
                done = true;
            } else {
                assert(row.subrange(0, e - iso_lo).push(row[e - iso_lo]) =~= row.subrange(0, e + 1 - iso_lo));
                e = e + 1;
            }
        }
        c = c + 1;
    }
    r
}

/// Occurrences of handle `h` among the first `upto` entries of `s`.
pub open spec fn count_of(s: Seq<usize>, h: int, upto: int) -> nat
    decreases upto,
{
    if upto <= 0 {
        0
    } else {
        count_of(s, h, upto - 1) + if s[upto - 1] == h { 1nat } else { 0nat }
    }
}

/// Handles that the probe at fragment window `win` and precursor window
/// `[lo, hi]` returns.
pub open spec fn hits_at(idx: FragmentIndex, win: (u128, u128), lo: u128, hi: u128) -> Seq<usize> {
    window_hits(idx.fragments@, win.0, win.1, lo, hi, idx.fragments@.len() as int)
}

/// Matched peaks of peptide `h` over the first `upto` peak windows: the
/// number of its fragments that each peak's probe returns, summed.
pub open spec fn matched(idx: FragmentIndex, peaks: Seq<(u128, u128)>, lo: u128, hi: u128, h: int, upto: int) -> nat
    decreases upto,
{
    if upto <= 0 {
        0
    } else {
        let s = hits_at(idx, peaks[upto - 1], lo, hi);
        matched(idx, peaks, lo, hi, h, upto - 1) + count_of(s, h, s.len() as int)
    }
}

proof fn lemma_hits_len(frags: Seq<crate::fragment::Fragment>, fl: u128, fh: u128, lo: u128, hi: u128, upto: int)
    ensures
        window_hits(frags, fl, fh, lo, hi, upto).len() <= if upto < 0 { 0 } else { upto },
    decreases upto,
{
    if upto > 0 {
        lemma_hits_len(frags, fl, fh, lo, hi, upto - 1);
    }
}

proof fn lemma_count_of_bound(s: Seq<usize>, h: int, upto: int)
    ensures
        count_of(s, h, upto) <= if upto < 0 { 0 } else { upto },
    decreases upto,
{
    if upto > 0 {
        lemma_count_of_bound(s, h, upto - 1);
    }
}

proof fn lemma_matched_bound(idx: FragmentIndex, peaks: Seq<(u128, u128)>, lo: u128, hi: u128, h: int, upto: int)
    requires
        0 <= upto <= peaks.len(),
    ensures
        matched(idx, peaks, lo, hi, h, upto) <= upto * idx.fragments@.len(),
    decreases upto,
{
    if upto > 0 {
        lemma_matched_bound(idx, peaks, lo, hi, h, upto - 1);
        let s = hits_at(idx, peaks[upto - 1], lo, hi);
        lemma_hits_len(idx.fragments@, peaks[upto - 1].0, peaks[upto - 1].1, lo, hi, idx.fragments@.len() as int);
        lemma_count_of_bound(s, h, s.len() as int);
        assert((upto - 1) * idx.fragments@.len() + idx.fragments@.len() == upto * idx.fragments@.len()) by (nonlinear_arith);
    }
}

/// Counts, for each of the first `n_peptides` handles, the matched peaks of
/// a spectrum: over the fragment windows of its peaks, the fragments of
/// that peptide the index returns within the precursor window `[lo, hi]`.
pub fn match_counts(idx: &FragmentIndex, n_peptides: usize, peaks: &Vec<(u128, u128)>, lo: u128, hi: u128) -> (r: Vec<usize>)
    requires
        idx.wf(),
        peaks@.len() * idx.fragments@.len() <= usize::MAX,
    ensures
        r@.len() == n_peptides,
        forall|h: int| 0 <= h < n_peptides ==> r@[h] == #[trigger] matched(*idx, peaks@, lo, hi, h, peaks@.len() as int),
{
    let mut counts: Vec<usize> = Vec::new();
    let mut h: usize = 0;
    while h < n_peptides
        invariant
            h <= n_peptides,
            counts@.len() == h,
            forall|t: int| 0 <= t < h ==> counts@[t] == 0,
        decreases n_peptides - h,
    {
        counts.push(0);
        h = h + 1;
    }
    let mut i: usize = 0;
    while i < peaks.len()
        invariant
            idx.wf(),
            peaks@.len() * idx.fragments@.len() <= usize::MAX,
            i <= peaks@.len(),
            counts@.len() == n_peptides,
            forall|t: int| 0 <= t < n_peptides ==> counts@[t] == #[trigger] matched(*idx, peaks@, lo, hi, t, i as int),
        decreases peaks@.len() - i,
    {
        let (fl, fh) = peaks[i];
        let hits = idx.probe(fl, fh, lo, hi);
        let ghost s = hits@;
        assert(s == hits_at(*idx, peaks@[i as int], lo, hi));
        proof {
            lemma_hits_len(idx.fragments@, fl, fh, lo, hi, idx.fragments@.len() as int);
            assert((i + 1) * idx.fragments@.len() <= peaks@.len() * idx.fragments@.len()) by (nonlinear_arith)
                requires
                    i + 1 <= peaks@.len(),
            ;
            assert(i * idx.fragments@.len() + idx.fragments@.len() == (i + 1) * idx.fragments@.len()) by (nonlinear_arith);
        }
        let mut j: usize = 0;
        while j < hits.len()
            invariant
                idx.wf(),
                i < peaks@.len(),
                s == hits@,
                j <= s.len(),
                s.len() <= idx.fragments@.len(),
                (i + 1) * idx.fragments@.len() <= usize::MAX,
                i * idx.fragments@.len() + idx.fragments@.len() == (i + 1) * idx.fragments@.len(),
                counts@.len() == n_peptides,
                forall|t: int|
                    0 <= t < n_peptides ==> counts@[t] == #[trigger] matched(*idx, peaks@, lo, hi, t, i as int) + count_of(
                        s,
                        t,
                        j as int,
                    ),
            decreases s.len() - j,
        {
            let p = hits[j];
            if p < n_peptides {
                proof {
                    lemma_matched_bound(*idx, peaks@, lo, hi, p as int, i as int);
                    lemma_count_of_bound(s, p as int, j as int);
                }
                let v = counts[p];
                counts.set(p, v + 1);
            }
            j = j + 1;
        }
        proof {
            assert forall|t: int| 0 <= t < n_peptides implies counts@[t] == #[trigger] matched(
                *idx,
                peaks@,
                lo,
                hi,
                t,
                i + 1,
            ) by {
                assert(matched(*idx, peaks@, lo, hi, t, i + 1) == matched(*idx, peaks@, lo, hi, t, i as int)
                    + count_of(s, t, s.len() as int));
            }
        }
        i = i + 1;
    }
    counts
}

/// Handles below `k`, in order, with at least `min_matched` matched peaks.
pub open spec fn candidates_upto(counts: Seq<usize>, min_matched: usize, k: int) -> Seq<usize>
    decreases k,
{
    if k <= 0 {
        Seq::empty()
    } else if counts[k - 1] >= min_matched {
        candidates_upto(counts, min_matched, k - 1).push((k - 1) as usize)
    } else {
        candidates_upto(counts, min_matched, k - 1)
    }
}

/// The peptides worth scoring: handles, ascending, whose matched-peak count
/// reaches `min_matched`. None reaching it gives an empty list.
pub fn candidates(counts: &Vec<usize>, min_matched: usize) -> (r: Vec<usize>)
    ensures
        r@ == candidates_upto(counts@, min_matched, counts@.len() as int),
{
    let mut r: Vec<usize> = Vec::new();
    let mut i: usize = 0;
    while i < counts.len()
        invariant
            i <= counts@.len(),
            r@ == candidates_upto(counts@, min_matched, i as int),
        decreases counts@.len() - i,
    {
        if counts[i] >= min_matched {
            r.push(i);
        }
        i = i + 1;
    }
    r
}

/// The first `k` peak windows, in order, at which the probe does not return
/// handle `h`.
pub open spec fn unmatched_upto(idx: FragmentIndex, peaks: Seq<(u128, u128)>, lo: u128, hi: u128, h: usize, k: int) -> Seq<(u128, u128)>
    decreases k,
{
    if k <= 0 {
        Seq::empty()
    } else if hits_at(idx, peaks[k - 1], lo, hi).contains(h) {
        unmatched_upto(idx, peaks, lo, hi, h, k - 1)
    } else {
        unmatched_upto(idx, peaks, lo, hi, h, k - 1).push(peaks[k - 1])
    }
}

fn contains_handle(v: &Vec<usize>, h: usize) -> (r: bool)
    ensures
        r == v@.contains(h),
{
    let mut i: usize = 0;
    while i < v.len()
        invariant
            i <= v@.len(),
            forall|j: int| 0 <= j < i ==> v@[j] != h,
        decreases v@.len() - i,
    {
        if v[i] == h {
            return true;
        }
        i = i + 1;
    }
    false
}

/// For chimeric search: the peaks of a spectrum that the top hit `h` did
/// not match, in order, so that a second peptide can be scored on them.
pub fn unmatched_peaks(idx: &FragmentIndex, peaks: &Vec<(u128, u128)>, lo: u128, hi: u128, h: usize) -> (r: Vec<(u128, u128)>)
    requires
        idx.wf(),
    ensures
        r@ == unmatched_upto(*idx, peaks@, lo, hi, h, peaks@.len() as int),
{
    let mut r: Vec<(u128, u128)> = Vec::new();
    let mut i: usize = 0;
    while i < peaks.len()
        invariant
            idx.wf(),
            i <= peaks@.len(),
            r@ == unmatched_upto(*idx, peaks@, lo, hi, h, i as int),
        decreases peaks@.len() - i,
    {
        let (fl, fh) = peaks[i];
        let hits = idx.probe(fl, fh, lo, hi);
        if !contains_handle(&hits, h) {
            r.push(peaks[i]);
        }
        i = i + 1;
    }
    r
}

proof fn lemma_count_of_absent(s: Seq<usize>, h: usize, upto: int)
    requires
        0 <= upto <= s.len(),
        !s.contains(h),
    ensures
        count_of(s, h as int, upto) == 0,
    decreases upto,
{
    if upto > 0 {
        lemma_count_of_absent(s, h, upto - 1);
        assert(s[upto - 1] != h);
    }
}

proof fn lemma_unmatched_prefix(idx: FragmentIndex, peaks: Seq<(u128, u128)>, lo: u128, hi: u128, h: usize, k: int, m: int)
    requires
        0 <= m <= unmatched_upto(idx, peaks, lo, hi, h, k).len(),
    ensures
        matched(idx, unmatched_upto(idx, peaks, lo, hi, h, k), lo, hi, h as int, m) == 0,
    decreases k, m,
{
    let u = unmatched_upto(idx, peaks, lo, hi, h, k);
    if m > 0 {
        if k > 0 {
            let prev = unmatched_upto(idx, peaks, lo, hi, h, k - 1);
            if hits_at(idx, peaks[k - 1], lo, hi).contains(h) {
                lemma_unmatched_prefix(idx, peaks, lo, hi, h, k - 1, m);
            } else {
                lemma_matched_prefix_eq(idx, prev, u, lo, hi, h as int, if m < u.len() { m } else { m - 1 });
                if m < u.len() {
                    lemma_unmatched_prefix(idx, peaks, lo, hi, h, k - 1, m);
                } else {
                    lemma_unmatched_prefix(idx, peaks, lo, hi, h, k - 1, m - 1);
                    let s = hits_at(idx, u[m - 1], lo, hi);
                    lemma_count_of_absent(s, h, s.len() as int);
                }
            }
        }
    }
}

proof fn lemma_matched_prefix_eq(idx: FragmentIndex, a: Seq<(u128, u128)>, b: Seq<(u128, u128)>, lo: u128, hi: u128, h: int, m: int)
    requires
        0 <= m <= a.len(),
        m <= b.len(),
        forall|i: int| 0 <= i < m ==> a[i] == b[i],
    ensures
        matched(idx, a, lo, hi, h, m) == matched(idx, b, lo, hi, h, m),
    decreases m,
{
    if m > 0 {
        lemma_matched_prefix_eq(idx, a, b, lo, hi, h, m - 1);
    }
}

/// Once the peaks that the top hit matched are taken out, the top hit
/// matches none of the peaks that remain: whatever is scored second shares
/// no matched peak with it.
pub proof fn lemma_chimera_disjoint(idx: FragmentIndex, peaks: Seq<(u128, u128)>, lo: u128, hi: u128, h: usize)
    ensures
        matched(
            idx,
            unmatched_upto(idx, peaks, lo, hi, h, peaks.len() as int),
            lo,
            hi,
            h as int,
            unmatched_upto(idx, peaks, lo, hi, h, peaks.len() as int).len() as int,
        ) == 0,
{
    let u = unmatched_upto(idx, peaks, lo, hi, h, peaks.len() as int);
    lemma_unmatched_prefix(idx, peaks, lo, hi, h, peaks.len() as int, u.len() as int);
}

} // verus!
