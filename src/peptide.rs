use vstd::prelude::*;
use crate::digest::{digest_spans, lemma_digest_spans_valid, DigestLimits, Enzyme};
use crate::mass::{decoy_of, decoy_sequence, lemma_decoy_mass, monoisotopic_mass, peptide_mass};
use crate::residue::{all_valid, is_canonical};

verus! {

/// A peptide of the search database. Its handle is its position in the
/// peptide table.
pub struct Peptide {
    pub sequence: Vec<u8>,
    /// Monoisotopic neutral mass, in micro-daltons.
    pub monoisotopic: u128,
    /// Built by reversing a target rather than digested from a protein.
    pub decoy: bool,
    /// Position of the source protein in the protein list.
    pub protein: usize,
}

/// A peptide as plain values: sequence, mass, decoy flag and protein.
pub open spec fn peptide_view(p: Peptide) -> (Seq<u8>, int, bool, usize) {
    (p.sequence@, p.monoisotopic as int, p.decoy, p.protein)
}

/// The peptides of the first `j` spans of protein `prot` (position `k`):
/// each target, then, when decoys are asked for, its decoy.
pub open spec fn span_entries(
    prot: Seq<u8>,
    k: usize,
    spans: Seq<(usize, usize)>,
    with_decoys: bool,
    j: int,
) -> Seq<(Seq<u8>, int, bool, usize)>
    decreases j,
{
    if j <= 0 {
        Seq::empty()
    } else {
        let sub = prot.subrange(spans[j - 1].0 as int, spans[j - 1].1 as int);
        let base = span_entries(prot, k, spans, with_decoys, j - 1).push((sub, peptide_mass(sub), false, k));
        if with_decoys {
            base.push((decoy_of(sub), peptide_mass(decoy_of(sub)), true, k))
        } else {
            base
        }
    }
}

/// The peptide table of the first `k` proteins.
pub open spec fn peptide_table(
    prots: Seq<Seq<u8>>,
    e: Enzyme,
    lim: DigestLimits,
    with_decoys: bool,
    k: int,
) -> Seq<(Seq<u8>, int, bool, usize)>
    decreases k,
{
    if k <= 0 {
        Seq::empty()
    } else {
        let spans = digest_spans(e, lim, prots[k - 1]);
        peptide_table(prots, e, lim, with_decoys, k - 1) + span_entries(
            prots[k - 1],
            (k - 1) as usize,
            spans,
            with_decoys,
            spans.len() as int,
        )
    }
}

/// Whether every protein holds canonical residues only.
pub open spec fn proteins_valid(prots: Seq<Seq<u8>>) -> bool {
    forall|k: int| 0 <= k < prots.len() ==> all_valid(#[trigger] prots[k])
}

fn subsequence(s: &Vec<u8>, a: usize, b: usize) -> (r: Vec<u8>)
    requires
        a <= b <= s@.len(),
    ensures
        r@ == s@.subrange(a as int, b as int),
{
    let mut r: Vec<u8> = Vec::new();
    let mut i: usize = a;
    while i < b
        invariant
            a <= i <= b <= s@.len(),
            r@ == s@.subrange(a as int, i as int),
        decreases b - i,
    {
        r.push(s[i]);
        assert(s@.subrange(a as int, i + 1) =~= s@.subrange(a as int, i as int).push(s@[i as int]));
        i = i + 1;
    }
    r
}

/// Builds the peptide table: each protein in turn is digested, and each
/// peptide is listed with its mass, followed by its decoy when decoys are
/// asked for. `None` when a protein holds a residue outside the canonical
/// alphabet.
pub fn build_peptides(proteins: &Vec<Vec<u8>>, enzyme: &Enzyme, lim: DigestLimits, with_decoys: bool) -> (r: Option<Vec<Peptide>>)
    ensures
        match r {
            Some(v) => proteins_valid(proteins@.map_values(|p: Vec<u8>| p@)) && v@.map_values(
                |p: Peptide| peptide_view(p),
            ) == peptide_table(
                proteins@.map_values(|p: Vec<u8>| p@),
                *enzyme,
                lim,
                with_decoys,
                proteins@.len() as int,
            ),
            None => !proteins_valid(proteins@.map_values(|p: Vec<u8>| p@)),
        },
{
    let ghost prots = proteins@.map_values(|p: Vec<u8>| p@);
    let mut out: Vec<Peptide> = Vec::new();
    let mut k: usize = 0;
    while k < proteins.len()
        invariant
            prots == proteins@.map_values(|p: Vec<u8>| p@),
            k <= proteins@.len(),
            forall|t: int| 0 <= t < k ==> all_valid(#[trigger] prots[t]),
            out@.map_values(|p: Peptide| peptide_view(p)) == peptide_table(prots, *enzyme, lim, with_decoys, k as int),
        decreases proteins@.len() - k,
    {
        let prot = &proteins[k];
        let n = prot.len();
        if !is_canonical(prot) {
            assert(!all_valid(prots[k as int]));
            return None;
        }
        let spans = enzyme.digest(prot, lim);
        proof {
            lemma_digest_spans_valid(*enzyme, lim, prot@);
        }
        let ghost start = out@.map_values(|p: Peptide| peptide_view(p));
        let mut j: usize = 0;
        while j < spans.len()
            invariant
                prots == proteins@.map_values(|p: Vec<u8>| p@),
                k < proteins@.len(),
                prot@ == prots[k as int],
                all_valid(prot@),
                spans@ == digest_spans(*enzyme, lim, prot@),
                forall|i: int| 0 <= i < spans@.len() ==> (#[trigger] spans@[i]).0 < spans@[i].1 <= prot@.len(),
                j <= spans@.len(),
                out@.map_values(|p: Peptide| peptide_view(p)) == start + span_entries(
                    prot@,
                    k,
                    spans@,
                    with_decoys,
                    j as int,
                ),
            decreases spans@.len() - j,
        {
            let (a, b) = spans[j];
            let sub = subsequence(prot, a, b);
            let ghost subv = sub@;
            assert(all_valid(subv)) by {
                assert forall|i: int| 0 <= i < subv.len() implies crate::residue::is_valid_residue(#[trigger] subv[i]) by {
                    assert(subv[i] == prot@[a + i]);
                }
            }
            let mass = match monoisotopic_mass(&sub) {
                Some(m) => m,
                None => {
                    return None;
                },
            };
            let ghost before = out@.map_values(|p: Peptide| peptide_view(p));
            let decoy_seq = if with_decoys { decoy_sequence(&sub) } else { Vec::new() };
            out.push(Peptide { sequence: sub, monoisotopic: mass, decoy: false, protein: k });
            let ghost mid = out@.map_values(|p: Peptide| peptide_view(p));
            assert(mid =~= before.push((subv, peptide_mass(subv), false, k)));
            if with_decoys {
                proof {
                    lemma_decoy_mass(subv);
                }
                out.push(Peptide { sequence: decoy_seq, monoisotopic: mass, decoy: true, protein: k });
                assert(out@.map_values(|p: Peptide| peptide_view(p)) =~= mid.push(
                    (decoy_of(subv), peptide_mass(decoy_of(subv)), true, k),
                ));
            }
            j = j + 1;
        }
        proof {
            assert(prots[k as int] == prot@);
            assert(peptide_table(prots, *enzyme, lim, with_decoys, k + 1) == peptide_table(
                prots,
                *enzyme,
                lim,
                with_decoys,
                k as int,
            ) + span_entries(prot@, k, spans@, with_decoys, spans@.len() as int));
        }
        k = k + 1;
    }
    assert(proteins_valid(prots));
    Some(out)
}

} // verus!
