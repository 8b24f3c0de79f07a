use vstd::prelude::*;

verus! {

/// Search options as requested; `None` asks for the default.
#[derive(Clone, Copy, Debug)]
pub struct Request {
    pub report_psms: Option<usize>,
    pub chimera: Option<bool>,
    pub min_peaks: Option<usize>,
    pub max_peaks: Option<usize>,
    pub isotope_errors: Option<(i8, i8)>,
    pub deisotope: Option<bool>,
    pub process_files_parallel: Option<bool>,
}

/// Search options with every default and override applied.
#[derive(Clone, Copy, Debug, PartialEq, Eq)]
pub struct SearchOptions {
    pub report_psms: usize,
    pub chimera: bool,
    pub min_peaks: usize,
    pub max_peaks: usize,
    pub isotope_errors: (i8, i8),
    pub deisotope: bool,
    pub process_files_parallel: bool,
    /// The precursor window must be widened to at least 1.25 Da on each
    /// side before searching.
    pub widen_precursor: bool,
}

/// A configuration that cannot be searched.
#[derive(Clone, Copy, Debug, PartialEq, Eq)]
pub enum ConfigError {
    /// The least isotope error exceeds the greatest.
    IsotopeErrorRange { lo: i8, hi: i8 },
}

pub const DEFAULT_REPORT_PSMS: usize = 1;

pub const DEFAULT_MIN_PEAKS: usize = 15;

pub const DEFAULT_MAX_PEAKS: usize = 150;

/// The value of `o`, or `d` when it is absent.
pub open spec fn or_default<T>(o: Option<T>, d: T) -> T {
    match o {
        Some(v) => v,
        None => d,
    }
}

/// The options that `req` resolves to, when its isotope range is ordered.
pub open spec fn resolved(req: Request) -> SearchOptions {
    let chimera = or_default(req.chimera, false);
    let iso = or_default(req.isotope_errors, (0i8, 0i8));
    SearchOptions {
        report_psms: if chimera { 1 } else { or_default(req.report_psms, DEFAULT_REPORT_PSMS) },
        chimera,
        min_peaks: or_default(req.min_peaks, DEFAULT_MIN_PEAKS),
        max_peaks: or_default(req.max_peaks, DEFAULT_MAX_PEAKS),
        isotope_errors: iso,
        deisotope: or_default(req.deisotope, true),
        process_files_parallel: or_default(req.process_files_parallel, true),
        widen_precursor: chimera,
    }
}

impl SearchOptions {
    /// Applies defaults to a request: one reported match, at least 15 and at
    /// most 150 peaks, isotope errors 0 to 0, deisotoping on, chimeric search
    /// off, files in parallel. Chimeric search reports one match per spectrum
    /// and widens a precursor window narrower than 1.25 Da on either side.
    /// A request whose least isotope error exceeds its greatest is refused.
    pub fn resolve(req: &Request) -> (r: Result<SearchOptions, ConfigError>)
        ensures
            match r {
                Ok(o) => or_default(req.isotope_errors, (0i8, 0i8)).0 <= or_default(
                    req.isotope_errors,
                    (0i8, 0i8),
                ).1 && o == resolved(*req),
                Err(e) => {
                    let iso = or_default(req.isotope_errors, (0i8, 0i8));
                    iso.0 > iso.1 && e == ConfigError::IsotopeErrorRange { lo: iso.0, hi: iso.1 }
                },
            },
    {
        let iso: (i8, i8) = match req.isotope_errors {
            Some(v) => v,
            None => (0, 0),
        };
        if iso.0 > iso.1 {
            return Err(ConfigError::IsotopeErrorRange { lo: iso.0, hi: iso.1 });
        }
        let chimera = match req.chimera {
            Some(v) => v,
            None => false,
        };
        let report_psms = if chimera {
            1
        } else {
            match req.report_psms {
                Some(v) => v,
                None => DEFAULT_REPORT_PSMS,
            }
        };
        Ok(
            SearchOptions {
                report_psms,
                chimera,
                min_peaks: match req.min_peaks {
                    Some(v) => v,
                    None => DEFAULT_MIN_PEAKS,
                },
                max_peaks: match req.max_peaks {
                    Some(v) => v,
                    None => DEFAULT_MAX_PEAKS,
                },
                isotope_errors: iso,
                deisotope: match req.deisotope {
                    Some(v) => v,
                    None => true,
                },
                process_files_parallel: match req.process_files_parallel {
                    Some(v) => v,
                    None => true,
                },
                widen_precursor: chimera,
            },
        )
    }
}

} // verus!
