use vstd::prelude::*;

verus! {

/// Number of canonical amino acid residues.
pub const AA_COUNT: usize = 20;

/// The canonical residue alphabet, in the order used by feature vectors.
pub open spec fn valid_aa() -> Seq<u8> {
    // A C D E F G H I K L M N P Q R S T V W Y, as ASCII codes
    seq![
        65, 67, 68, 69, 70, 71, 72, 73, 75, 76,
        77, 78, 80, 81, 82, 83, 84, 86, 87, 89,
    ]
}

/// Whether `c` is one of the canonical residues.
pub open spec fn is_valid_residue(c: u8) -> bool {
    exists|i: int| 0 <= i < AA_COUNT && valid_aa()[i] == c
}

/// Whether every residue of `s` is canonical.
pub open spec fn all_valid(s: Seq<u8>) -> bool {
    forall|i: int| 0 <= i < s.len() ==> is_valid_residue(#[trigger] s[i])
}

/// Position of `c` in the canonical alphabet.
pub open spec fn aa_index(c: u8) -> int {
    choose|i: int| 0 <= i < AA_COUNT && valid_aa()[i] == c
}

/// Position of residue `c` in the canonical alphabet, or `None` when `c`
/// is not a canonical residue.
pub fn residue_index(c: u8) -> (r: Option<usize>)
    ensures
        match r {
            Some(i) => i < AA_COUNT && valid_aa()[i as int] == c && aa_index(c) == i,
            None => !is_valid_residue(c),
        },
{
    let r: Option<usize> = match c {
        65 => Some(0),
        67 => Some(1),
        68 => Some(2),
        69 => Some(3),
        70 => Some(4),
        71 => Some(5),
        72 => Some(6),
        73 => Some(7),
        75 => Some(8),
        76 => Some(9),
        77 => Some(10),
        78 => Some(11),
        80 => Some(12),
        81 => Some(13),
        82 => Some(14),
        83 => Some(15),
        84 => Some(16),
        86 => Some(17),
        87 => Some(18),
        89 => Some(19),
        _ => None,
    };
    proof {
        lemma_alphabet_distinct();
        match r {
            Some(i) => {
                assert(valid_aa()[i as int] == c);
                let j = aa_index(c);
                assert(0 <= j < AA_COUNT && valid_aa()[j] == c);
            },
            None => {
                if is_valid_residue(c) {
                    let j = choose|j: int| 0 <= j < AA_COUNT && valid_aa()[j] == c;
                    assert(valid_aa()[j] == c);
                }
            },
        }
    }
    r
}

/// Whether every residue of `s` is canonical.
pub fn is_canonical(s: &Vec<u8>) -> (r: bool)
    ensures
        r == all_valid(s@),
{
    let mut i: usize = 0;
    while i < s.len()
        invariant
            i <= s@.len(),
            forall|j: int| 0 <= j < i ==> is_valid_residue(#[trigger] s@[j]),
        decreases s@.len() - i,
    {
        if residue_index(s[i]).is_none() {
            return false;
        }
        i = i + 1;
    }
    true
}

/// No residue appears twice in the canonical alphabet.
pub proof fn lemma_alphabet_distinct()
    ensures
        valid_aa().len() == AA_COUNT,
        forall|i: int, j: int|
            0 <= i < AA_COUNT && 0 <= j < AA_COUNT && valid_aa()[i] == valid_aa()[j] ==> i == j,
{
    assert(valid_aa().len() == AA_COUNT);
    assert(valid_aa()[0] == 65);
    assert(valid_aa()[1] == 67);
    assert(valid_aa()[2] == 68);
    assert(valid_aa()[3] == 69);
    assert(valid_aa()[4] == 70);
    assert(valid_aa()[5] == 71);
    assert(valid_aa()[6] == 72);
    assert(valid_aa()[7] == 73);
    assert(valid_aa()[8] == 75);
    assert(valid_aa()[9] == 76);
    assert(valid_aa()[10] == 77);
    assert(valid_aa()[11] == 78);
    assert(valid_aa()[12] == 80);
    assert(valid_aa()[13] == 81);
    assert(valid_aa()[14] == 82);
    assert(valid_aa()[15] == 83);
    assert(valid_aa()[16] == 84);
    assert(valid_aa()[17] == 86);
    assert(valid_aa()[18] == 87);
    assert(valid_aa()[19] == 89);
}

} // verus!
