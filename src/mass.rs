use vstd::prelude::*;
use crate::residue::{aa_index, all_valid, is_valid_residue, residue_index};

verus! {

// Masses are held in micro-daltons (1e-6 Da).

/// Monoisotopic mass of water.
pub const H2O: u64 = 18010565;

/// Monoisotopic residue masses, in the order of the canonical alphabet.
pub open spec fn mass_table() -> Seq<int> {
    seq![
        71037110, 103009190, 115026940, 129042590, 147068400, 57021460, 137058910, 113084060, 128094960, 113084060,
        131040490, 114042930, 97052760, 128058580, 156101100, 87032030, 101047680, 99068410, 186079310, 163063330,
    ]
}

/// Monoisotopic residue mass of `c`, zero for a residue outside the alphabet.
pub open spec fn residue_mass(c: u8) -> int {
    if is_valid_residue(c) { mass_table()[aa_index(c)] } else { 0 }
}

/// Sum of the residue masses of `s`.
pub open spec fn residues_mass(s: Seq<u8>) -> int
    decreases s.len(),
{
    if s.len() == 0 {
        0
    } else {
        residue_mass(s[0]) + residues_mass(s.drop_first())
    }
}

/// Monoisotopic neutral mass of an unmodified peptide `s`.
pub open spec fn peptide_mass(s: Seq<u8>) -> int {
    residues_mass(s) + H2O
}

/// Monoisotopic residue mass of `c`, or `None` when `c` is not a canonical residue.
pub fn residue_mass_of(c: u8) -> (r: Option<u64>)
    ensures
        match r {
            Some(m) => is_valid_residue(c) && m as int == residue_mass(c) && 0 < m < 200_000_000,
            None => !is_valid_residue(c),
        },
{
    let idx = match residue_index(c) {
        Some(i) => i,
        None => {
            return None;
        },
    };
    let m: u64 = match idx {
            0 => 71037110,
            1 => 103009190,
            2 => 115026940,
            3 => 129042590,
            4 => 147068400,
            5 => 57021460,
            6 => 137058910,
            7 => 113084060,
            8 => 128094960,
            9 => 113084060,
            10 => 131040490,
            11 => 114042930,
            12 => 97052760,
            13 => 128058580,
            14 => 156101100,
            15 => 87032030,
            16 => 101047680,
            17 => 99068410,
            18 => 186079310,
            _ => 163063330,
    };
    assert(m == mass_table()[idx as int]);
    Some(m)
}

pub proof fn lemma_mass_push(s: Seq<u8>, c: u8)
    ensures
        residues_mass(s.push(c)) == residues_mass(s) + residue_mass(c),
    decreases s.len(),
{
    if s.len() == 0 {
        assert(s.push(c).drop_first() =~= Seq::<u8>::empty());
        assert(residues_mass(Seq::<u8>::empty()) == 0);
        assert(s =~= Seq::<u8>::empty());
    } else {
        assert(s.push(c).drop_first() =~= s.drop_first().push(c));
        assert(s.push(c)[0] == s[0]);
        lemma_mass_push(s.drop_first(), c);
    }
}

pub proof fn lemma_mass_concat(a: Seq<u8>, b: Seq<u8>)
    ensures
        residues_mass(a + b) == residues_mass(a) + residues_mass(b),
    decreases a.len(),
{
    if a.len() == 0 {
        assert(a + b =~= b);
    } else {
        assert((a + b).drop_first() =~= a.drop_first() + b);
        lemma_mass_concat(a.drop_first(), b);
    }
}

proof fn lemma_mass_reverse(a: Seq<u8>, b: Seq<u8>)
    requires
        a.len() == b.len(),
        forall|i: int| 0 <= i < b.len() ==> b[i] == a[a.len() - 1 - i],
    ensures
        residues_mass(a) == residues_mass(b),
    decreases a.len(),
{
    if a.len() > 0 {
        let a1 = a.drop_first();
        let b1 = b.drop_last();
        assert forall|i: int| 0 <= i < b1.len() implies b1[i] == a1[a1.len() - 1 - i] by {
            assert(b1[i] == b[i]);
        }
        lemma_mass_reverse(a1, b1);
        assert(b =~= b1.push(b[b.len() - 1]));
        lemma_mass_push(b1, b[b.len() - 1]);
    }
}

/// Monoisotopic neutral mass of an unmodified peptide, or `None` when a
/// residue is outside the canonical alphabet.
pub fn monoisotopic_mass(sequence: &Vec<u8>) -> (r: Option<u128>)
    ensures
        match r {
            Some(m) => all_valid(sequence@) && m as int == peptide_mass(sequence@),
            None => !all_valid(sequence@),
        },
{
    let ghost s = sequence@;
    let mut acc: u128 = H2O as u128;
    let mut i: usize = 0;
    while i < sequence.len()
        invariant
            s == sequence@,
            i <= s.len(),
            all_valid(s.subrange(0, i as int)),
            acc as int == residues_mass(s.subrange(0, i as int)) + H2O,
            acc as int <= (i as int) * 200_000_000 + H2O,
        decreases s.len() - i,
    {
        assert(i as int <= u64::MAX);
        let m = match residue_mass_of(sequence[i]) {
            Some(m) => m,
            None => {
                assert(!all_valid(s)) by {
                    assert(!is_valid_residue(s[i as int]));
                }
                return None;
            },
        };
        proof {
            assert(s.subrange(0, i + 1) =~= s.subrange(0, i as int).push(s[i as int]));
            lemma_mass_push(s.subrange(0, i as int), s[i as int]);
        }
        acc = acc + m as u128;
        i = i + 1;
    }
    assert(s.subrange(0, s.len() as int) =~= s);
    Some(acc)
}

/// The decoy of a peptide: its internal residues reversed, the first and the
/// last residue kept in place.
pub open spec fn decoy_of(s: Seq<u8>) -> Seq<u8> {
    Seq::new(
        s.len(),
        |i: int|
            if i == 0 || i == s.len() - 1 {
                s[i]
            } else {
                s[s.len() - 1 - i]
            },
    )
}

/// Builds the decoy sequence of a target peptide: the internal residues
/// reversed, the terminal residues kept so that the enzyme still cuts there.
pub fn decoy_sequence(sequence: &Vec<u8>) -> (r: Vec<u8>)
    ensures
        r@ == decoy_of(sequence@),
{
    let n = sequence.len();
    let mut r: Vec<u8> = Vec::new();
    let mut i: usize = 0;
    while i < n
        invariant
            n == sequence@.len(),
            i <= n,
            r@ =~= decoy_of(sequence@).subrange(0, i as int),
        decreases n - i,
    {
        if i == 0 || i == n - 1 {
            r.push(sequence[i]);
        } else {
            r.push(sequence[n - 1 - i]);
        }
        i = i + 1;
    }
    r
}

/// A decoy has the same length, the same terminal residues and the same
/// monoisotopic mass as the peptide it was built from.
pub proof fn lemma_decoy_mass(s: Seq<u8>)
    ensures
        decoy_of(s).len() == s.len(),
        s.len() > 0 ==> decoy_of(s)[0] == s[0] && decoy_of(s)[s.len() - 1] == s[s.len() - 1],
        peptide_mass(decoy_of(s)) == peptide_mass(s),
{
    let d = decoy_of(s);
    let n = s.len() as int;
    if n < 2 {
        assert(d =~= s);
    } else {
        let mid = s.subrange(1, n - 1);
        let rmid = d.subrange(1, n - 1);
        assert(s =~= seq![s[0]] + mid + seq![s[n - 1]]);
        assert(d =~= seq![s[0]] + rmid + seq![s[n - 1]]);
        assert forall|i: int| 0 <= i < rmid.len() implies rmid[i] == mid[mid.len() - 1 - i] by {
            assert(rmid[i] == d[i + 1]);
        }
        lemma_mass_reverse(mid, rmid);
        lemma_mass_concat(seq![s[0]] + mid, seq![s[n - 1]]);
        lemma_mass_concat(seq![s[0]], mid);
        lemma_mass_concat(seq![s[0]] + rmid, seq![s[n - 1]]);
        lemma_mass_concat(seq![s[0]], rmid);
    }
}

/// Every residue mass lies between zero and 200 Da.
pub proof fn lemma_residue_mass_bound(c: u8)
    ensures
        0 <= residue_mass(c) <= 200_000_000,
{
    if is_valid_residue(c) {
        let i = aa_index(c);
        assert(0 <= i < 20);
        assert forall|j: int| 0 <= j < 20 implies 0 < #[trigger] mass_table()[j] < 200_000_000 by {
            assert(mass_table()[0] == 71037110);
        }
    }
}

} // verus!
