use vstd::prelude::*;

verus! {

/// ASCII lower case of byte `c`.
pub open spec fn ascii_lower(c: u8) -> u8 {
    if 65 <= c <= 90 { (c + 32) as u8 } else { c }
}

/// Whether `ext` reads `mzml` in any mix of cases.
pub open spec fn is_mzml(ext: Seq<u8>) -> bool {
    // m z m l
    ext.len() == 4 && ascii_lower(ext[0]) == 109 && ascii_lower(ext[1]) == 122 && ascii_lower(
        ext[2],
    ) == 109 && ascii_lower(ext[3]) == 108
}

fn lower_byte(c: u8) -> (r: u8)
    ensures
        r == ascii_lower(c),
{
    if 65 <= c && c <= 90 {
        c + 32
    } else {
        c
    }
}

/// Whether a spectrum file extension names an mzML file, ignoring case.
pub fn is_mzml_extension(ext: &[u8]) -> (r: bool)
    ensures
        r == is_mzml(ext@),
{
    ext.len() == 4 && lower_byte(ext[0]) == 109 && lower_byte(ext[1]) == 122 && lower_byte(ext[2])
        == 109 && lower_byte(ext[3]) == 108
}

/// Positions below `k`, in order, of the spectra with at least `min_peaks` peaks.
pub open spec fn scoreable(peak_counts: Seq<usize>, min_peaks: usize, k: int) -> Seq<usize>
    decreases k,
{
    if k <= 0 {
        Seq::empty()
    } else if peak_counts[k - 1] >= min_peaks {
        scoreable(peak_counts, min_peaks, k - 1).push((k - 1) as usize)
    } else {
        scoreable(peak_counts, min_peaks, k - 1)
    }
}

/// Chooses the spectra worth scoring: the positions, in order, of those with
/// at least `min_peaks` peaks.
pub fn scoreable_spectra(peak_counts: &Vec<usize>, min_peaks: usize) -> (r: Vec<usize>)
    ensures
        r@ == scoreable(peak_counts@, min_peaks, peak_counts@.len() as int),
{
    let mut r: Vec<usize> = Vec::new();
    let mut i: usize = 0;
    while i < peak_counts.len()
        invariant
            i <= peak_counts@.len(),
            r@ == scoreable(peak_counts@, min_peaks, i as int),
        decreases peak_counts@.len() - i,
    {
        if peak_counts[i] >= min_peaks {
            r.push(i);
        }
        i = i + 1;
    }
    r
}

/// MS level of the spectra that are searched against the database.
pub const SEARCH_LEVEL: u8 = 2;

/// Positions below `k`, in order, of the spectra at the searched MS level.
pub open spec fn at_search_level(levels: Seq<u8>, k: int) -> Seq<usize>
    decreases k,
{
    if k <= 0 {
        Seq::empty()
    } else if levels[k - 1] == SEARCH_LEVEL {
        at_search_level(levels, k - 1).push((k - 1) as usize)
    } else {
        at_search_level(levels, k - 1)
    }
}

/// Chooses the spectra of a multi-level acquisition that are searched: the
/// positions, in order, of the MS2 spectra. MS3 spectra are left to
/// reporter-ion quantification.
pub fn searched_spectra(levels: &Vec<u8>) -> (r: Vec<usize>)
    ensures
        r@ == at_search_level(levels@, levels@.len() as int),
{
    let mut r: Vec<usize> = Vec::new();
    let mut i: usize = 0;
    while i < levels.len()
        invariant
            i <= levels@.len(),
            r@ == at_search_level(levels@, i as int),
        decreases levels@.len() - i,
    {
        if levels[i] == SEARCH_LEVEL {
            r.push(i);
        }
        i = i + 1;
    }
    r
}

/// What a run produced: the output paths of the files that succeeded, in
/// input order, and the number of files that failed.
pub struct RunOutcome {
    pub outputs: Vec<String>,
    pub failures: usize,
}

/// The paths, in order, carried by the successes among the first `k` results.
pub open spec fn ok_paths(results: Seq<Result<String, String>>, k: int) -> Seq<Seq<char>>
    decreases k,
{
    if k <= 0 {
        Seq::empty()
    } else {
        match results[k - 1] {
            Ok(p) => ok_paths(results, k - 1).push(p@),
            Err(_) => ok_paths(results, k - 1),
        }
    }
}

/// The number of failures among the first `k` results.
pub open spec fn failure_count(results: Seq<Result<String, String>>, k: int) -> nat
    decreases k,
{
    if k <= 0 {
        0
    } else {
        failure_count(results, k - 1) + match results[k - 1] {
            Ok(_) => 0nat,
            Err(_) => 1nat,
        }
    }
}

proof fn lemma_failure_bound(results: Seq<Result<String, String>>, k: int)
    ensures
        failure_count(results, k) <= if k < 0 { 0 } else { k },
    decreases k,
{
    if k > 0 {
        lemma_failure_bound(results, k - 1);
    }
}

impl RunOutcome {
    /// Gathers the per-file results of a run: the output path of each file
    /// that succeeded, in order, and the count of those that failed.
    pub fn gather(results: &Vec<Result<String, String>>) -> (r: RunOutcome)
        ensures
            r.outputs@.map_values(|p: String| p@) == ok_paths(results@, results@.len() as int),
            r.failures == failure_count(results@, results@.len() as int),
    {
        let mut outputs: Vec<String> = Vec::new();
        let mut failures: usize = 0;
        let mut i: usize = 0;
        while i < results.len()
            invariant
                i <= results@.len(),
                outputs@.map_values(|p: String| p@) == ok_paths(results@, i as int),
                failures == failure_count(results@, i as int),
            decreases results@.len() - i,
        {
            proof {
                lemma_failure_bound(results@, i as int);
            }
            match &results[i] {
                Ok(p) => {
                    let ghost before = outputs@;
                    outputs.push(p.clone());
                    assert(outputs@.map_values(|p: String| p@) =~= before.map_values(
                        |p: String| p@,
                    ).push(p@));
                },
                Err(_) => {
                    failures = failures + 1;
                },
            }
            i = i + 1;
        }
        RunOutcome { outputs, failures }
    }

    /// A run succeeds when it produced at least one output file.
    pub fn succeeded(&self) -> (r: bool)
        ensures
            r == (self.outputs@.len() > 0),
    {
        self.outputs.len() > 0
    }
}

} // verus!
