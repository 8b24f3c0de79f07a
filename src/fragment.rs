use vstd::prelude::*;
use crate::mass::{monoisotopic_mass, peptide_mass, residue_mass, residue_mass_of, residues_mass, H2O};
use crate::residue::{all_valid, is_valid_residue};

verus! {

/// Monoisotopic mass of a proton, in micro-daltons.
pub const PROTON: u64 = 1007276;

/// A theoretical fragment ion: its singly charged mass, the handle of its
/// peptide and that peptide's precursor mass.
#[derive(Clone, Copy, Debug, PartialEq, Eq)]
pub struct Fragment {
    pub mz: u128,
    pub peptide: usize,
    pub precursor: u128,
}

/// Singly charged b ion of `s` holding its first `i` residues.
pub open spec fn b_ion(s: Seq<u8>, i: int) -> int {
    residues_mass(s.subrange(0, i)) + PROTON
}

/// Singly charged y ion of `s` holding its last `i` residues.
pub open spec fn y_ion(s: Seq<u8>, i: int) -> int {
    residues_mass(s.subrange(s.len() - i, s.len() as int)) + H2O + PROTON
}

/// Whether `mz` is one of the b or y ions of `s`, each holding between one
/// and all but one of its residues.
pub open spec fn is_ion(s: Seq<u8>, mz: int) -> bool {
    exists|i: int| 1 <= i < s.len() && (mz == b_ion(s, i) || mz == y_ion(s, i))
}

/// Whether `f` is a fragment of peptide `h` of `peptides` within `[lo, hi]`.
pub open spec fn is_fragment_of(peptides: Seq<Seq<u8>>, lo: int, hi: int, f: Fragment) -> bool {
    &&& 0 <= f.peptide < peptides.len()
    &&& f.precursor == peptide_mass(peptides[f.peptide as int])
    &&& lo <= f.mz <= hi
    &&& is_ion(peptides[f.peptide as int], f.mz as int)
}

/// Whether `frags` lists exactly the fragments of `peptides` within `[lo, hi]`.
pub open spec fn lists_fragments(peptides: Seq<Seq<u8>>, lo: int, hi: int, frags: Seq<Fragment>) -> bool {
    &&& forall|k: int| 0 <= k < frags.len() ==> is_fragment_of(peptides, lo, hi, #[trigger] frags[k])
    &&& forall|f: Fragment| is_fragment_of(peptides, lo, hi, f) ==> frags.contains(f)
}

proof fn lemma_mass_split(s: Seq<u8>, i: int)
    requires
        0 <= i <= s.len(),
    ensures
        residues_mass(s) == residues_mass(s.subrange(0, i)) + residues_mass(s.subrange(i, s.len() as int)),
{
    crate::mass::lemma_mass_concat(s.subrange(0, i), s.subrange(i, s.len() as int));
    assert(s.subrange(0, i) + s.subrange(i, s.len() as int) =~= s);
}

proof fn lemma_mass_bound(s: Seq<u8>)
    ensures
        0 <= residues_mass(s) <= s.len() * 200_000_000,
    decreases s.len(),
{
    if s.len() > 0 {
        lemma_mass_bound(s.drop_first());
        crate::mass::lemma_residue_mass_bound(s[0]);
    }
}

/// Appends to `out` the b and y ions of peptide `h` with sequence `s` whose
/// mass lies in `[lo, hi]`.
fn push_fragments(
    out: &mut Vec<Fragment>,
    h: usize,
    s: &Vec<u8>,
    precursor: u128,
    lo: u128,
    hi: u128,
    Ghost(peptides): Ghost<Seq<Seq<u8>>>,
)
    requires
        0 <= h < peptides.len(),
        peptides[h as int] == s@,
        all_valid(s@),
        precursor == peptide_mass(s@),
    ensures
        final(out)@.len() >= old(out)@.len(),
        final(out)@.subrange(0, old(out)@.len() as int) == old(out)@,
        forall|k: int|
            old(out)@.len() <= k < final(out)@.len() ==> is_fragment_of(
                peptides,
                lo as int,
                hi as int,
                #[trigger] final(out)@[k],
            ) && final(out)@[k].peptide == h,
        forall|f: Fragment|
            is_fragment_of(peptides, lo as int, hi as int, f) && f.peptide == h ==> final(out)@.contains(f),
{
    let n = s.len();
    let ghost start = out@.len();
    let ghost o = out@;
    let mut prefix: u128 = 0;
    let mut i: usize = 1;
    proof {
        lemma_mass_bound(s@);
    }
    while i < n
        invariant
            1 <= i,
            n == s@.len(),
            n <= usize::MAX,
            i <= n || n == 0,
            0 <= h < peptides.len(),
            peptides[h as int] == s@,
            all_valid(s@),
            precursor == peptide_mass(s@),
            0 <= residues_mass(s@) <= n * 200_000_000,
            i <= n ==> prefix as int == residues_mass(s@.subrange(0, i - 1)),
            out@.len() >= start,
            out@.subrange(0, start as int) == o,
            forall|k: int|
                start <= k < out@.len() ==> is_fragment_of(peptides, lo as int, hi as int, #[trigger] out@[k])
                    && out@[k].peptide == h,
            forall|j: int|
                1 <= j < i && lo <= b_ion(s@, j) <= hi ==> #[trigger] out@.contains(
                    Fragment { mz: b_ion(s@, j) as u128, peptide: h, precursor },
                ),
            forall|j: int|
                1 <= j < i && lo <= y_ion(s@, n - j) <= hi ==> #[trigger] out@.contains(
                    Fragment { mz: y_ion(s@, n - j) as u128, peptide: h, precursor },
                ),
        decreases n - i,
    {
        let c = s[i - 1];
        proof {
            assert(is_valid_residue(s@[i - 1]));
        }
        let m = match residue_mass_of(c) {
            Some(m) => m,
            None => 0,
        };
        proof {
            assert(s@.subrange(0, i as int) =~= s@.subrange(0, i - 1).push(s@[i - 1]));
            crate::mass::lemma_mass_push(s@.subrange(0, i - 1), s@[i - 1]);
            lemma_mass_split(s@, i as int);
            lemma_mass_bound(s@.subrange(i as int, n as int));
            lemma_mass_bound(s@.subrange(0, i as int));
            assert(s@.subrange(n - (n - i), n as int) == s@.subrange(i as int, n as int));
        }
        prefix = prefix + m as u128;
        let b = prefix + PROTON as u128;
        let y = precursor - prefix + PROTON as u128;
        assert(b as int == b_ion(s@, i as int));
        assert(y as int == y_ion(s@, n - i));
        let ghost before = out@;
        if lo <= b && b <= hi {
            let f = Fragment { mz: b, peptide: h, precursor };
            proof {
                assert(is_ion(s@, b as int));
            }
            out.push(f);
            proof {
                lemma_push_keeps(before, f);
                assert(out@[before.len() as int] == f);
            }
        }
        let ghost mid = out@;
        if lo <= y && y <= hi {
            let f = Fragment { mz: y, peptide: h, precursor };
            proof {
                assert(is_ion(s@, y as int));
            }
            out.push(f);
            proof {
                lemma_push_keeps(mid, f);
                assert(out@[mid.len() as int] == f);
            }
        }
        proof {
            assert(out@.subrange(0, start as int) =~= o);
        }
        i = i + 1;
    }
    proof {
        assert forall|f: Fragment|
            is_fragment_of(peptides, lo as int, hi as int, f) && f.peptide == h implies out@.contains(f) by {
            let j = choose|j: int| 1 <= j < n && (f.mz == b_ion(s@, j) || f.mz == y_ion(s@, j));
            if f.mz == b_ion(s@, j) {
                assert(out@.contains(Fragment { mz: b_ion(s@, j) as u128, peptide: h, precursor }));
            } else {
                assert(out@.contains(Fragment { mz: y_ion(s@, n - (n - j)) as u128, peptide: h, precursor }));
            }
        }
    }
}

proof fn lemma_push_keeps(s: Seq<Fragment>, x: Fragment)
    ensures
        forall|y: Fragment| s.contains(y) ==> #[trigger] s.push(x).contains(y),
        s.push(x).contains(x),
{
    assert forall|y: Fragment| s.contains(y) implies #[trigger] s.push(x).contains(y) by {
        let k = choose|k: int| 0 <= k < s.len() && s[k] == y;
        assert(s.push(x)[k] == y);
    }
    assert(s.push(x)[s.len() as int] == x);
}

/// The sequences of a peptide table.
pub open spec fn sequences(peptides: Seq<Vec<u8>>) -> Seq<Seq<u8>> {
    peptides.map_values(|v: Vec<u8>| v@)
}

/// Whether every peptide of the table holds canonical residues only.
pub open spec fn all_peptides_valid(peptides: Seq<Seq<u8>>) -> bool {
    forall|p: int| 0 <= p < peptides.len() ==> all_valid(#[trigger] peptides[p])
}

/// Every b and y ion of every peptide whose mass lies in `[lo, hi]`, tagged
/// with its peptide's handle (its position in the table) and precursor mass.
/// `None` when a peptide holds a residue outside the canonical alphabet.
pub fn collect_fragments(peptides: &Vec<Vec<u8>>, lo: u128, hi: u128) -> (r: Option<Vec<Fragment>>)
    ensures
        match r {
            Some(v) => all_peptides_valid(sequences(peptides@)) && lists_fragments(
                sequences(peptides@),
                lo as int,
                hi as int,
                v@,
            ),
            None => !all_peptides_valid(sequences(peptides@)),
        },
{
    let ghost seqs = sequences(peptides@);
    let mut out: Vec<Fragment> = Vec::new();
    let mut h: usize = 0;
    while h < peptides.len()
        invariant
            seqs == sequences(peptides@),
            seqs.len() == peptides@.len(),
            h <= peptides@.len(),
            forall|p: int| 0 <= p < h ==> all_valid(#[trigger] seqs[p]),
            forall|k: int|
                0 <= k < out@.len() ==> is_fragment_of(seqs, lo as int, hi as int, #[trigger] out@[k])
                    && out@[k].peptide < h,
            forall|f: Fragment|
                is_fragment_of(seqs, lo as int, hi as int, f) && f.peptide < h ==> #[trigger] out@.contains(f),
        decreases peptides@.len() - h,
    {
        let precursor = match monoisotopic_mass(&peptides[h]) {
            Some(m) => m,
            None => {
                assert(!all_valid(seqs[h as int]));
                return None;
            },
        };
        let ghost before = out@;
        push_fragments(&mut out, h, &peptides[h], precursor, lo, hi, Ghost(seqs));
        proof {
            assert forall|k: int| 0 <= k < out@.len() implies is_fragment_of(
                seqs,
                lo as int,
                hi as int,
                #[trigger] out@[k],
            ) && out@[k].peptide < h + 1 by {
                if k < before.len() {
                    assert(out@.subrange(0, before.len() as int)[k] == out@[k]);
                }
            }
            assert forall|f: Fragment|
                is_fragment_of(seqs, lo as int, hi as int, f) && f.peptide < h + 1 implies #[trigger] out@.contains(f) by {
                if f.peptide < h {
                    assert(before.contains(f));
                    let k = choose|k: int| 0 <= k < before.len() && before[k] == f;
                    assert(out@.subrange(0, before.len() as int)[k] == f);
                    assert(out@[k] == f);
                }
            }
        }
        h = h + 1;
    }
    Some(out)
}

} // verus!
