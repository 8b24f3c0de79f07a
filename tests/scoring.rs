use sage::fragment::{collect_fragments, PROTON};
use sage::index::FragmentIndex;
use sage::mass::monoisotopic_mass;
use sage::scoring::{candidate_windows, candidates, match_counts, unmatched_peaks, NEUTRON};

const MIN_MZ: u128 = 100_000_000;
const MAX_MZ: u128 = 2_000_000_000;

fn ppm_window(mz: u128, ppm: u128) -> (u128, u128) {
    let d = mz * ppm / 1_000_000;
    (mz - d, mz + d)
}

fn table() -> Vec<Vec<u8>> {
    vec![b"AAAR".to_vec(), b"MK".to_vec(), b"PEPTIDEK".to_vec(), b"PEPTLDEK".to_vec()]
}

#[test]
fn aaar_spectrum_matches_four_ions() {
    let peptides = table();
    let idx = FragmentIndex::from_peptides(&peptides, MIN_MZ, MAX_MZ, 1_000_000).unwrap();
    // b2, b3, y2, y3 of AAAR
    let peaks: Vec<(u128, u128)> = [143_081_496u128, 214_118_606, 246_156_051, 317_193_161]
        .iter()
        .map(|&mz| ppm_window(mz, 10))
        .collect();
    let mass = monoisotopic_mass(&peptides[0]).unwrap();
    let counts = match_counts(&idx, peptides.len(), &peaks, mass - 20_000, mass + 20_000);
    assert_eq!(counts, vec![4, 0, 0, 0]);
    assert_eq!(candidates(&counts, 4), vec![0]);
    assert!(candidates(&counts, 5).is_empty());
}

#[test]
fn identical_ions_give_equal_counts_in_handle_order() {
    let peptides = table();
    let idx = FragmentIndex::from_peptides(&peptides, MIN_MZ, MAX_MZ, 1_000_000).unwrap();
    let ions = collect_fragments(&vec![peptides[2].clone()], MIN_MZ, MAX_MZ).unwrap();
    let peaks: Vec<(u128, u128)> = ions.iter().map(|f| ppm_window(f.mz, 10)).collect();
    let mass = monoisotopic_mass(&peptides[2]).unwrap();
    assert_eq!(monoisotopic_mass(&peptides[3]).unwrap(), mass);
    let counts = match_counts(&idx, peptides.len(), &peaks, mass - 20_000, mass + 20_000);
    assert_eq!(counts[2], ions.len());
    assert_eq!(counts[2], counts[3]);
    assert_eq!(candidates(&counts, 3), vec![2, 3]);
}

#[test]
fn match_counts_ignore_handles_beyond_table() {
    let peptides = table();
    let idx = FragmentIndex::from_peptides(&peptides, MIN_MZ, MAX_MZ, 1_000_000).unwrap();
    let peaks = vec![ppm_window(143_081_496, 10)];
    let counts = match_counts(&idx, 1, &peaks, 0, u128::MAX);
    assert_eq!(counts, vec![1]);
    assert!(match_counts(&idx, 4, &Vec::new(), 0, u128::MAX).iter().all(|&c| c == 0));
}

#[test]
fn probe_lists_hits_in_index_order() {
    let peptides = table();
    let idx = FragmentIndex::from_peptides(&peptides, MIN_MZ, MAX_MZ, 1_000_000).unwrap();
    let hits = idx.probe(MIN_MZ, MAX_MZ, 0, u128::MAX);
    assert_eq!(hits.len(), idx.fragments.len());
    let expected: Vec<usize> = idx.fragments.iter().map(|f| f.peptide).collect();
    assert_eq!(hits, expected);
}

#[test]
fn precursor_windows_for_charges_and_isotope_errors() {
    let w = candidate_windows(500_000_000, &vec![2, 3], -1, 1, -10_000, 10_000);
    assert_eq!(w.len(), 6);
    assert_eq!(w[0], (998_978_798, 998_998_798));
    let mut k = 0;
    for z in [2i128, 3] {
        for e in -1i128..=1 {
            let m = z * (500_000_000 - PROTON as i128) - e * NEUTRON;
            assert_eq!(w[k], (m - 10_000, m + 10_000));
            k += 1;
        }
    }
    assert!(candidate_windows(500_000_000, &Vec::new(), 0, 0, 0, 0).is_empty());
    assert_eq!(candidate_windows(500_000_000, &vec![1], 0, 0, 0, 0), vec![(498_992_724, 498_992_724)]);
}

#[test]
fn chimeric_spectrum_yields_second_peptide_on_remaining_peaks() {
    let peptides = table();
    let idx = FragmentIndex::from_peptides(&peptides, MIN_MZ, MAX_MZ, 1_000_000).unwrap();
    // AAAR: b2, b3, y2, y3; MK: b1, y1
    let peaks: Vec<(u128, u128)> = [
        132_047_766u128,
        143_081_496,
        147_112_801,
        214_118_606,
        246_156_051,
        317_193_161,
    ]
    .iter()
    .map(|&mz| ppm_window(mz, 10))
    .collect();
    let counts = match_counts(&idx, peptides.len(), &peaks, 0, u128::MAX);
    // the y1 ion (K) is shared with PEPTIDEK and PEPTLDEK
    assert_eq!(counts, vec![4, 2, 1, 1]);
    let rest = unmatched_peaks(&idx, &peaks, 0, u128::MAX, 0);
    assert_eq!(rest, vec![peaks[0], peaks[2]]);
    let second = match_counts(&idx, peptides.len(), &rest, 0, u128::MAX);
    assert_eq!(second, vec![0, 2, 1, 1]);
    assert_eq!(candidates(&second, 2), vec![1]);
}
