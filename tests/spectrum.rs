use sage::spectrum::{deisotope, pick_peaks, process_peaks};

#[test]
fn pick_peaks_keeps_most_intense_in_window() {
    let mz = vec![100, 200, 300, 400, 500];
    let intensity = vec![5, 9, 9, 1, 7];
    assert_eq!(pick_peaks(&mz, &intensity, 150, 450, 2), vec![1, 2]);
    assert_eq!(pick_peaks(&mz, &intensity, 0, 1000, 3), vec![1, 2, 4]);
    assert_eq!(pick_peaks(&mz, &intensity, 0, 1000, 10), vec![0, 1, 2, 3, 4]);
    assert!(pick_peaks(&mz, &intensity, 0, 1000, 0).is_empty());
    assert!(pick_peaks(&mz, &intensity, 600, 700, 5).is_empty());
}

#[test]
fn pick_peaks_breaks_intensity_ties_by_position() {
    let mz = vec![100, 200, 300];
    let intensity = vec![4, 4, 4];
    assert_eq!(pick_peaks(&mz, &intensity, 0, 1000, 2), vec![0, 1]);
}

#[test]
fn deisotope_drops_isotope_peaks() {
    let mz = vec![500_000_000, 500_501_675, 501_003_350, 501_010_000, 600_000_000, 601_003_350];
    let intensity = vec![100, 80, 50, 40, 10, 20];
    // charge-two and charge-one isotopes of the first peak go; the peak
    // 6650 micro-daltons off stays; a heavier, more intense peak stays too
    assert_eq!(deisotope(&mz, &intensity), vec![0, 3, 4, 5]);
}

#[test]
fn deisotope_tolerance_is_five_ppm() {
    // 5 ppm of 501 Da is about 2505 micro-daltons
    let inside = vec![500_000_000, 501_005_800];
    let outside = vec![500_000_000, 501_005_900];
    let intensity = vec![10, 5];
    assert_eq!(deisotope(&inside, &intensity), vec![0]);
    assert_eq!(deisotope(&outside, &intensity), vec![0, 1]);
    assert!(deisotope(&Vec::new(), &Vec::new()).is_empty());
}

#[test]
fn deisotope_charge_three_spacing() {
    let mz = vec![700_000_000, 700_334_450];
    assert_eq!(deisotope(&mz, &vec![30, 30]), vec![0]);
    assert_eq!(deisotope(&mz, &vec![30, 31]), vec![0, 1]);
}

#[test]
fn process_peaks_windows_then_deisotopes_then_picks() {
    let mz = vec![50, 500_000_000, 500_501_675, 501_003_350, 600_000_000, 601_003_350, 3_000_000_000];
    let intensity = vec![1000, 100, 80, 50, 10, 20, 999];
    let lo = 100_000_000;
    let hi = 2_000_000_000;
    assert_eq!(process_peaks(&mz, &intensity, lo, hi, true, 2), vec![1, 5]);
    assert_eq!(process_peaks(&mz, &intensity, lo, hi, true, 10), vec![1, 4, 5]);
    assert_eq!(process_peaks(&mz, &intensity, lo, hi, false, 2), vec![1, 2]);
    assert_eq!(process_peaks(&mz, &intensity, lo, hi, false, 150), vec![1, 2, 3, 4, 5]);
    assert!(process_peaks(&Vec::new(), &Vec::new(), lo, hi, true, 150).is_empty());
}
