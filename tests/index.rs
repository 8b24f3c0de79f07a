use sage::fragment::{collect_fragments, Fragment, PROTON};
use sage::index::FragmentIndex;
use sage::mass::monoisotopic_mass;

fn table() -> Vec<Vec<u8>> {
    vec![b"AAAR".to_vec(), b"MK".to_vec()]
}

const MIN_MZ: u128 = 100_000_000;
const MAX_MZ: u128 = 2_000_000_000;
const WIDTH: u128 = 1_000_000;

fn ppm_window(mz: u128, ppm: u128) -> (u128, u128) {
    let d = mz * ppm / 1_000_000;
    (mz - d, mz + d)
}

#[test]
fn fragments_of_aaar_and_mk() {
    let frags = collect_fragments(&table(), MIN_MZ, MAX_MZ).unwrap();
    let aaar = monoisotopic_mass(&b"AAAR".to_vec()).unwrap();
    let mk = monoisotopic_mass(&b"MK".to_vec()).unwrap();
    let mut ions: Vec<(u128, usize)> = frags.iter().map(|f| (f.mz, f.peptide)).collect();
    ions.sort();
    // b1 of AAAR (72.044 Da) falls below the window
    assert_eq!(
        ions,
        vec![
            (132_047_766, 1),
            (143_081_496, 0),
            (147_112_801, 1),
            (175_118_941, 0),
            (214_118_606, 0),
            (246_156_051, 0),
            (317_193_161, 0),
        ]
    );
    for f in &frags {
        let expected = if f.peptide == 0 { aaar } else { mk };
        assert_eq!(f.precursor, expected);
    }
    assert_eq!(143_081_496 - 2 * 71_037_110, PROTON as u128);
}

#[test]
fn fragments_refuse_invalid_residue() {
    assert!(collect_fragments(&vec![b"AAXR".to_vec()], MIN_MZ, MAX_MZ).is_none());
    assert!(FragmentIndex::from_peptides(&vec![b"PEPTIDE".to_vec(), b"BK".to_vec()], MIN_MZ, MAX_MZ, WIDTH).is_none());
}

#[test]
fn probe_returns_peptide_at_each_of_its_ions() {
    let peptides = table();
    let idx = FragmentIndex::from_peptides(&peptides, MIN_MZ, MAX_MZ, WIDTH).unwrap();
    assert_eq!(idx.buckets.len(), 2001);
    assert_eq!(idx.fragments.len(), 7);
    let frags = collect_fragments(&peptides, MIN_MZ, MAX_MZ).unwrap();
    for f in &frags {
        let (fl, fh) = ppm_window(f.mz, 10);
        let hits = idx.probe(fl, fh, f.precursor - 10_000, f.precursor + 10_000);
        assert!(hits.contains(&f.peptide));
        // the same ion with the precursor window elsewhere finds nothing of it
        let away = idx.probe(fl, fh, f.precursor + 1_000_000, f.precursor + 2_000_000);
        assert!(!away.contains(&f.peptide));
    }
    let (fl, fh) = ppm_window(500_000_000, 10);
    assert!(idx.probe(fl, fh, 0, u128::MAX).is_empty());
    assert!(idx.probe(fh, fl, 0, u128::MAX).is_empty());
}

#[test]
fn probe_window_across_bucket_edge() {
    let f = Fragment { mz: 5_999_990, peptide: 3, precursor: 700_000_000 };
    let g = Fragment { mz: 6_000_010, peptide: 4, precursor: 800_000_000 };
    let idx = FragmentIndex::build(&vec![g, f], 1_000_000, 10_000_000);
    assert_eq!(idx.buckets.len(), 11);
    let mut hits = idx.probe(5_999_980, 6_000_020, 0, u128::MAX);
    hits.sort();
    assert_eq!(hits, vec![3, 4]);
    assert_eq!(idx.probe(5_999_980, 6_000_020, 750_000_000, u128::MAX), vec![4]);
}

#[test]
fn buckets_bound_their_precursors() {
    let peptides = vec![b"PEPTIDEK".to_vec(), b"AAAR".to_vec(), b"MK".to_vec(), b"GGGGGK".to_vec()];
    let idx = FragmentIndex::from_peptides(&peptides, MIN_MZ, MAX_MZ, 50_000_000).unwrap();
    let mut seen = 0;
    for (b, bk) in idx.buckets.iter().enumerate() {
        assert!(bk.start <= bk.end);
        for f in &idx.fragments[bk.start..bk.end] {
            assert!(bk.min_precursor <= f.precursor && f.precursor <= bk.max_precursor);
            assert_eq!(f.mz / 50_000_000, b as u128);
            seen += 1;
        }
    }
    assert_eq!(seen, idx.fragments.len());
}
