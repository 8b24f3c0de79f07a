use sage::config::{ConfigError, Request, SearchOptions};
use sage::digest::{DigestLimits, Enzyme};
use sage::mass::{decoy_sequence, monoisotopic_mass, residue_mass_of, H2O};
use sage::peptide::build_peptides;
use sage::pipeline::{is_mzml_extension, scoreable_spectra, searched_spectra, RunOutcome};
use sage::qvalue::{assign_q_values, count_passing, QValue, DECOY};
use sage::residue::residue_index;
use sage::retention::{embed, training_set, FEATURES, INTEGER_FEATURES};

fn pieces(seq: &[u8], spans: &[(usize, usize)]) -> Vec<Vec<u8>> {
    spans.iter().map(|&(a, b)| seq[a..b].to_vec()).collect()
}

fn empty_request() -> Request {
    Request {
        report_psms: None,
        chimera: None,
        min_peaks: None,
        max_peaks: None,
        isotope_errors: None,
        deisotope: None,
        process_files_parallel: None,
    }
}

fn q_as_f64(q: &QValue) -> f64 {
    if q.den == 0 {
        f64::INFINITY
    } else {
        q.num as f64 / q.den as f64
    }
}

fn same_q(got: &QValue, want: f64) -> bool {
    let g = q_as_f64(got);
    (g.is_infinite() && want.is_infinite()) || (g - want).abs() < 1e-12
}

fn expected_q(labels: &[i8]) -> Vec<f64> {
    let mut decoys = 0usize;
    let mut targets = 0usize;
    let mut fdr = Vec::new();
    for &l in labels {
        if l == DECOY {
            decoys += 1;
        } else {
            targets += 1;
        }
        fdr.push(if targets == 0 { f64::INFINITY } else { (decoys + 1) as f64 / targets as f64 });
    }
    let mut q = vec![0.0; labels.len()];
    let mut best = f64::INFINITY;
    for i in (0..labels.len()).rev() {
        if fdr[i] < best {
            best = fdr[i];
        }
        q[i] = best;
    }
    q
}

#[test]
fn trypsin_digest_of_single_protein() {
    let protein = b"MKAAAR".to_vec();
    let lim = DigestLimits { missed_cleavages: 0, min_len: 1, max_len: 50 };
    let spans = Enzyme::trypsin().digest(&protein, lim);
    assert_eq!(spans, vec![(0, 2), (2, 6)]);
    let peptides = pieces(&protein, &spans);
    assert_eq!(peptides, vec![b"MK".to_vec(), b"AAAR".to_vec()]);

    let m = residue_mass_of(b'M').unwrap() as u128;
    let k = residue_mass_of(b'K').unwrap() as u128;
    let a = residue_mass_of(b'A').unwrap() as u128;
    let r = residue_mass_of(b'R').unwrap() as u128;
    let mk = monoisotopic_mass(&peptides[0]).unwrap();
    let aaar = monoisotopic_mass(&peptides[1]).unwrap();
    assert_eq!(mk, m + k + H2O as u128);
    assert_eq!(aaar, 3 * a + r + H2O as u128);
    // 277.14602 Da and 387.22300 Da, to within 1e-4 Da
    assert!((mk as f64 / 1e6 - 277.146015).abs() < 1e-4);
    assert!((aaar as f64 / 1e6 - 387.222995).abs() < 1e-4);

    for p in &peptides {
        let d = decoy_sequence(p);
        assert_eq!(monoisotopic_mass(&d), monoisotopic_mass(p));
    }
    assert_eq!(decoy_sequence(&b"AAAR".to_vec()), b"AAAR".to_vec());
}

#[test]
fn trypsin_respects_proline_and_missed_cleavages() {
    let protein = b"AKPGRDDKEE".to_vec();
    let enzyme = Enzyme::trypsin();
    assert_eq!(enzyme.boundaries(&protein), vec![0, 5, 8, 10]);
    let lim = DigestLimits { missed_cleavages: 1, min_len: 2, max_len: 8 };
    let spans = enzyme.digest(&protein, lim);
    assert_eq!(spans, vec![(0, 5), (0, 8), (5, 8), (5, 10), (8, 10)]);
    let short = DigestLimits { missed_cleavages: 0, min_len: 3, max_len: 4 };
    assert_eq!(enzyme.digest(&protein, short), vec![(5, 8)]);
    assert!(enzyme.digest(&Vec::new(), lim).is_empty());
}

#[test]
fn decoy_reverses_internal_residues_and_keeps_mass() {
    let target = b"PEPTIDEK".to_vec();
    let decoy = decoy_sequence(&target);
    assert_eq!(decoy, b"PEDITPEK".to_vec());
    assert_ne!(decoy, target);
    assert_eq!(monoisotopic_mass(&decoy), monoisotopic_mass(&target));
    assert_eq!(decoy_sequence(&b"K".to_vec()), b"K".to_vec());
    assert_eq!(decoy_sequence(&b"GK".to_vec()), b"GK".to_vec());
}

#[test]
fn invalid_residue_has_no_mass() {
    assert_eq!(residue_index(b'B'), None);
    assert_eq!(residue_index(b'A'), Some(0));
    assert_eq!(residue_index(b'Y'), Some(19));
    assert_eq!(residue_mass_of(b'X'), None);
    assert_eq!(monoisotopic_mass(&b"PEPXIDE".to_vec()), None);
    assert_eq!(monoisotopic_mass(&Vec::new()), Some(H2O as u128));
}

#[test]
fn embedding_counts_residues_and_termini() {
    let seq = b"ACDKR".to_vec();
    let e = embed(&seq);
    assert_eq!(e.len(), INTEGER_FEATURES);
    assert_eq!(e, embed(&seq));
    let a = residue_index(b'A').unwrap();
    let c = residue_index(b'C').unwrap();
    let d = residue_index(b'D').unwrap();
    let k = residue_index(b'K').unwrap();
    let r = residue_index(b'R').unwrap();
    for (i, v) in e.iter().enumerate().take(20) {
        let expected = if i == a || i == c || i == d || i == k || i == r { 1 } else { 0 };
        assert_eq!(*v, expected);
    }
    // first two positions: A, C
    assert_eq!(e[20 + a], 1);
    assert_eq!(e[20 + c], 1);
    assert_eq!(e[20..40].iter().sum::<usize>(), 2);
    // positions length-3 and length-2: D, K
    assert_eq!(e[40 + d], 1);
    assert_eq!(e[40 + k], 1);
    assert_eq!(e[40..60].iter().sum::<usize>(), 2);
    assert_eq!(e[60], 5);
}

#[test]
fn embedding_counts_c_terminal_positions_also_counted_at_n_terminus() {
    let a = residue_index(b'A').unwrap();
    let r = residue_index(b'R').unwrap();
    let e = embed(&b"AAR".to_vec());
    assert_eq!(e[20 + a], 2);
    assert_eq!(e[40 + a], 2);
    assert_eq!(e[40..60].iter().sum::<usize>(), 2);
    let e = embed(&b"AAAR".to_vec());
    assert_eq!(e[a], 3);
    assert_eq!(e[r], 1);
    assert_eq!(e[20 + a], 2);
    assert_eq!(e[40 + a], 2);
    assert_eq!(e[40 + r], 0);
    assert_eq!(e[60], 4);
}

#[test]
fn embedding_of_short_peptide_gives_termini_to_the_front() {
    let e = embed(&b"GK".to_vec());
    let g = residue_index(b'G').unwrap();
    let k = residue_index(b'K').unwrap();
    assert_eq!(e[20 + g], 1);
    assert_eq!(e[20 + k], 1);
    assert_eq!(e[40..60].iter().sum::<usize>(), 0);
    assert_eq!(e[60], 2);
}

#[test]
fn fdr_sweep_interleaved_targets_and_decoys() {
    let mut labels = Vec::new();
    for _ in 0..100 {
        labels.push(1i8);
        labels.push(-1i8);
    }
    let q = assign_q_values(&labels);
    let expected = expected_q(&labels);
    assert_eq!(q.len(), 200);
    for (got, want) in q.iter().zip(expected.iter()) {
        assert!(same_q(got, *want));
    }
    // the last rank keeps its own rate, 101 / 100; every other rank gets 1
    assert_eq!(q[199], QValue { num: 101, den: 100 });
    assert_eq!(q[198], QValue { num: 100, den: 100 });
    assert_eq!(q[0], QValue { num: 100, den: 100 });
    assert_eq!(count_passing(&q), 0);
}

#[test]
fn q_values_are_not_capped() {
    let q = assign_q_values(&vec![1i8, -1]);
    assert_eq!(q, vec![QValue { num: 1, den: 1 }, QValue { num: 2, den: 1 }]);
}

#[test]
fn q_values_follow_decoys_seen_plus_one_over_targets() {
    let mut labels = vec![1i8; 300];
    labels.push(-1);
    labels.extend(vec![1i8; 99]);
    labels.extend(vec![-1i8; 50]);
    let q = assign_q_values(&labels);
    let expected = expected_q(&labels);
    for (got, want) in q.iter().zip(expected.iter()) {
        assert!(same_q(got, *want));
    }
    // zero-based ranks: 1/300 up to rank 299, 2/399 from 300 to 399, then 3/399
    assert_eq!(q[0], QValue { num: 1, den: 300 });
    assert_eq!(q[299], QValue { num: 1, den: 300 });
    assert_eq!(q[300], QValue { num: 2, den: 399 });
    assert_eq!(q[398], QValue { num: 2, den: 399 });
    assert_eq!(q[400], QValue { num: 3, den: 399 });
    assert_eq!(count_passing(&q), 401);
    for i in 1..q.len() {
        assert!(q_as_f64(&q[i - 1]) <= q_as_f64(&q[i]));
    }
}

#[test]
fn q_values_of_decoys_only_are_unbounded() {
    let q = assign_q_values(&vec![-1i8, -1, -1]);
    assert!(q.iter().all(|v| v.den == 0));
    assert_eq!(count_passing(&q), 0);
    let q = assign_q_values(&vec![-1i8, 1]);
    assert_eq!(q, vec![QValue { num: 2, den: 1 }, QValue { num: 2, den: 1 }]);
    assert!(assign_q_values(&Vec::new()).is_empty());
}

#[test]
fn small_training_set_gives_no_fit() {
    let labels = vec![1i8; 10];
    let q = vec![QValue { num: 1, den: 1000 }; 10];
    assert_eq!(training_set(&labels, &q), None);
}

#[test]
fn training_set_keeps_confident_targets() {
    let mut labels = vec![1i8; 80];
    labels[3] = -1;
    let mut q = vec![QValue { num: 1, den: 200 }; 80];
    q[5] = QValue { num: 2, den: 100 };
    q[6] = QValue { num: 1, den: 100 };
    let rows = training_set(&labels, &q).unwrap();
    assert_eq!(rows.len(), 78);
    assert!(rows.len() >= FEATURES);
    assert!(!rows.contains(&3));
    assert!(!rows.contains(&5));
    assert!(rows.contains(&6));
    assert_eq!(rows[0], 0);
    assert_eq!(rows[3], 4);
}

#[test]
fn search_options_defaults() {
    let o = SearchOptions::resolve(&empty_request()).unwrap();
    assert_eq!(o.report_psms, 1);
    assert_eq!(o.min_peaks, 15);
    assert_eq!(o.max_peaks, 150);
    assert_eq!(o.isotope_errors, (0, 0));
    assert!(o.deisotope);
    assert!(!o.chimera);
    assert!(o.process_files_parallel);
    assert!(!o.widen_precursor);
}

#[test]
fn chimera_forces_one_report_and_wider_window() {
    let mut req = empty_request();
    req.chimera = Some(true);
    req.report_psms = Some(5);
    let o = SearchOptions::resolve(&req).unwrap();
    assert_eq!(o.report_psms, 1);
    assert!(o.widen_precursor);
    req.isotope_errors = Some((-1, 3));
    let o = SearchOptions::resolve(&req).unwrap();
    assert!(o.widen_precursor);
    assert_eq!(o.isotope_errors, (-1, 3));
    req.chimera = Some(false);
    assert_eq!(SearchOptions::resolve(&req).unwrap().report_psms, 5);
}

#[test]
fn reversed_isotope_range_is_refused() {
    let mut req = empty_request();
    req.isotope_errors = Some((2, -1));
    assert_eq!(
        SearchOptions::resolve(&req),
        Err(ConfigError::IsotopeErrorRange { lo: 2, hi: -1 })
    );
}

#[test]
fn mzml_extension_ignores_case() {
    assert!(is_mzml_extension(b"mzML"));
    assert!(is_mzml_extension(b"MZML"));
    assert!(!is_mzml_extension(b"mzXML"));
    assert!(!is_mzml_extension(b"raw"));
    assert!(!is_mzml_extension(b""));
}

#[test]
fn spectra_below_min_peaks_are_not_scored() {
    assert_eq!(scoreable_spectra(&vec![20, 3, 15, 14, 150], 15), vec![0, 2, 4]);
    assert!(scoreable_spectra(&Vec::new(), 15).is_empty());
    assert_eq!(searched_spectra(&vec![1, 2, 3, 2, 2]), vec![1, 3, 4]);
}

#[test]
fn run_outcome_keeps_successful_paths() {
    let results = vec![
        Ok("a.sage.pin".to_string()),
        Err("missing".to_string()),
        Ok("c.sage.pin".to_string()),
        Err("malformed".to_string()),
    ];
    let out = RunOutcome::gather(&results);
    assert_eq!(out.outputs, vec!["a.sage.pin".to_string(), "c.sage.pin".to_string()]);
    assert_eq!(out.failures, 2);
    assert!(out.succeeded());
    let none = RunOutcome::gather(&vec![Err("x".to_string())]);
    assert!(none.outputs.is_empty());
    assert!(!none.succeeded());
}

#[test]
fn peptide_table_of_single_protein_with_decoys() {
    let lim = DigestLimits { missed_cleavages: 0, min_len: 1, max_len: 50 };
    let table = build_peptides(&vec![b"MKAAAR".to_vec()], &Enzyme::trypsin(), lim, true).unwrap();
    let rows: Vec<(Vec<u8>, bool, usize)> = table.iter().map(|p| (p.sequence.clone(), p.decoy, p.protein)).collect();
    assert_eq!(
        rows,
        vec![
            (b"MK".to_vec(), false, 0),
            (b"MK".to_vec(), true, 0),
            (b"AAAR".to_vec(), false, 0),
            (b"AAAR".to_vec(), true, 0),
        ]
    );
    assert_eq!(table[0].monoisotopic, 277_146_015);
    assert_eq!(table[1].monoisotopic, 277_146_015);
    assert_eq!(table[2].monoisotopic, 387_222_995);
    assert_eq!(table[3].monoisotopic, 387_222_995);
}

#[test]
fn peptide_table_decoys_are_reversed_and_proteins_numbered() {
    let lim = DigestLimits { missed_cleavages: 0, min_len: 3, max_len: 50 };
    let proteins = vec![b"PEPTIDEK".to_vec(), b"GGK".to_vec()];
    let table = build_peptides(&proteins, &Enzyme::trypsin(), lim, true).unwrap();
    assert_eq!(table.len(), 4);
    assert_eq!(table[1].sequence, b"PEDITPEK".to_vec());
    assert!(table[1].decoy);
    assert_eq!(table[1].monoisotopic, table[0].monoisotopic);
    assert_eq!(table[2].protein, 1);
    let targets = build_peptides(&proteins, &Enzyme::trypsin(), lim, false).unwrap();
    assert_eq!(targets.len(), 2);
    assert!(targets.iter().all(|p| !p.decoy));
    assert!(build_peptides(&vec![b"GGK".to_vec(), b"PEPTJDEK".to_vec()], &Enzyme::trypsin(), lim, true).is_none());
}

#[test]
fn decoy_embedding_keeps_composition_and_length() {
    let target = b"PEPTIDEK".to_vec();
    let decoy = decoy_sequence(&target);
    let et = embed(&target);
    let ed = embed(&decoy);
    assert_eq!(et[0..20], ed[0..20]);
    assert_eq!(et[60], ed[60]);
    // the C-terminal block sees D, E in the target and P, E in the decoy
    assert_ne!(et[40..60], ed[40..60]);
}
