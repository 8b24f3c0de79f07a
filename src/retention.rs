use vstd::prelude::*;
use crate::qvalue::{passes, QValue};
use crate::mass::decoy_of;
use crate::residue::{aa_index, all_valid, residue_index};

verus! {

/// Length of the full retention feature vector: three residue blocks, the
/// peptide length, the log mass and the intercept.
pub const FEATURES: usize = 63;

/// Offset of the block counting residues at the two N-terminal positions.
pub const N_TERMINAL: usize = 20;

/// Offset of the block counting residues at the two positions before the
/// cleavage residue.
pub const C_TERMINAL: usize = 40;

/// Index of the peptide length feature.
pub const PEPTIDE_LEN: usize = 60;

/// Number of leading features that are integer counts (three residue blocks
/// and the length); the log mass and the intercept follow them.
pub const INTEGER_FEATURES: usize = 61;

/// Whether position `i` of a peptide of length `n` falls in block `part`:
/// 0 is the whole peptide, 1 the first two positions, 2 the two positions
/// `n - 3` and `n - 2` before the cleavage residue (none when `n < 3`).
pub open spec fn in_block(part: int, i: int, n: int) -> bool {
    if part == 0 {
        true
    } else if part == 1 {
        i == 0 || i == 1
    } else {
        part == 2 && n >= 3 && (i == n - 3 || i == n - 2)
    }
}

/// Number of positions below `upto` in block `part` that hold residue `k`.
pub open spec fn block_count(s: Seq<u8>, k: int, part: int, upto: int) -> nat
    decreases upto,
{
    if upto <= 0 {
        0
    } else {
        block_count(s, k, part, upto - 1) + if in_block(part, upto - 1, s.len() as int) && aa_index(
            s[upto - 1],
        ) == k {
            1nat
        } else {
            0nat
        }
    }
}

/// The integer part of the retention embedding of sequence `s`.
pub open spec fn embedding(s: Seq<u8>) -> Seq<int> {
    Seq::new(
        INTEGER_FEATURES as nat,
        |j: int|
            if j < 20 {
                block_count(s, j, 0, s.len() as int) as int
            } else if j < 40 {
                block_count(s, j - 20, 1, s.len() as int) as int
            } else if j < 60 {
                block_count(s, j - 40, 2, s.len() as int) as int
            } else {
                s.len() as int
            },
    )
}

/// Whether `r` is the integer embedding of `s`.
pub open spec fn is_embedding_of(s: Seq<u8>, r: Seq<usize>) -> bool {
    r.len() == INTEGER_FEATURES && forall|j: int|
        0 <= j < INTEGER_FEATURES ==> r[j] as int == #[trigger] embedding(s)[j]
}

proof fn lemma_block_count_bound(s: Seq<u8>, k: int, part: int, upto: int)
    ensures
        block_count(s, k, part, upto) <= if upto < 0 { 0 } else { upto },
    decreases upto,
{
    if upto > 0 {
        lemma_block_count_bound(s, k, part, upto - 1);
    }
}

/// Integer features of a peptide sequence for the retention-time model:
/// residue counts over the whole peptide, over its first two positions and
/// over the two positions before the cleavage residue, then its length.
pub fn embed(sequence: &Vec<u8>) -> (r: Vec<usize>)
    requires
        all_valid(sequence@),
    ensures
        is_embedding_of(sequence@, r@),
{
    let n = sequence.len();
    let mut emb: Vec<usize> = Vec::new();
    let mut j: usize = 0;
    while j < INTEGER_FEATURES
        invariant
            j <= INTEGER_FEATURES,
            emb@.len() == j,
            forall|t: int| 0 <= t < j ==> emb@[t] == 0,
        decreases INTEGER_FEATURES - j,
    {
        emb.push(0);
        j = j + 1;
    }
    let ghost s = sequence@;
    let mut i: usize = 0;
    while i < n
        invariant
            n == s.len(),
            s == sequence@,
            all_valid(s),
            i <= n,
            emb@.len() == INTEGER_FEATURES,
            forall|k: int|
                0 <= k < 20 ==> {
                    &&& emb@[k] as int == block_count(s, k, 0, i as int)
                    &&& emb@[k + 20] as int == block_count(s, k, 1, i as int)
                    &&& emb@[k + 40] as int == block_count(s, k, 2, i as int)
                },
        decreases n - i,
    {
        let c = sequence[i];
        assert(crate::residue::is_valid_residue(s[i as int]));
        let idx = match residue_index(c) {
            Some(x) => x,
            None => 0,
        };
        proof {
            assert forall|k: int, part: int|
                0 <= k < 20 && 0 <= part <= 2 implies #[trigger] block_count(s, k, part, i + 1) == block_count(s, k, part, i as int) + if in_block(
                part,
                i as int,
                n as int,
            ) && k == idx {
                1nat
            } else {
                0nat
            } by {}
            lemma_block_count_bound(s, idx as int, 0, i as int);
            lemma_block_count_bound(s, idx as int, 1, i as int);
            lemma_block_count_bound(s, idx as int, 2, i as int);
        }
        let v = emb[idx];
        emb.set(idx, v + 1);
        if i == 0 || i == 1 {
            let v = emb[N_TERMINAL + idx];
            emb.set(N_TERMINAL + idx, v + 1);
        }
        if n >= 3 && (i == n - 3 || i == n - 2) {
            let v = emb[C_TERMINAL + idx];
            emb.set(C_TERMINAL + idx, v + 1);
        }
        i = i + 1;
    }
    emb.set(PEPTIDE_LEN, n);
    proof {
        assert forall|j: int| 0 <= j < INTEGER_FEATURES implies emb@[j] as int == #[trigger] embedding(
            s,
        )[j] by {
            if j < 20 {
            } else if j < 40 {
                assert(emb@[(j - 20) + 20] == emb@[j]);
            } else if j < 60 {
                assert(emb@[(j - 40) + 40] == emb@[j]);
            }
        }
    }
    emb
}

/// The embedding is a function of the sequence alone: two embeddings of one
/// sequence are identical, element for element.
pub proof fn lemma_embed_deterministic(s: Seq<u8>, a: Seq<usize>, b: Seq<usize>)
    requires
        is_embedding_of(s, a),
        is_embedding_of(s, b),
    ensures
        a == b,
{
    assert(a =~= b) by {
        assert forall|j: int| 0 <= j < a.len() implies a[j] == b[j] by {
            assert(a[j] as int == embedding(s)[j]);
            assert(b[j] as int == embedding(s)[j]);
        }
    }
}

proof fn lemma_count_prefix(a: Seq<u8>, b: Seq<u8>, k: int, m: int)
    requires
        0 <= m <= a.len(),
    ensures
        block_count(a + b, k, 0, m) == block_count(a, k, 0, m),
    decreases m,
{
    if m > 0 {
        lemma_count_prefix(a, b, k, m - 1);
        assert((a + b)[m - 1] == a[m - 1]);
    }
}

proof fn lemma_count_concat_upto(a: Seq<u8>, b: Seq<u8>, k: int, j: int)
    requires
        0 <= j <= b.len(),
    ensures
        block_count(a + b, k, 0, a.len() + j) == block_count(a, k, 0, a.len() as int) + block_count(b, k, 0, j),
    decreases j,
{
    if j == 0 {
        lemma_count_prefix(a, b, k, a.len() as int);
    } else {
        lemma_count_concat_upto(a, b, k, j - 1);
        assert((a + b)[a.len() + j - 1] == b[j - 1]);
    }
}

proof fn lemma_count_concat(a: Seq<u8>, b: Seq<u8>, k: int)
    ensures
        block_count(a + b, k, 0, (a + b).len() as int) == block_count(a, k, 0, a.len() as int) + block_count(
            b,
            k,
            0,
            b.len() as int,
        ),
{
    lemma_count_concat_upto(a, b, k, b.len() as int);
}

proof fn lemma_count_reverse(a: Seq<u8>, b: Seq<u8>, k: int)
    requires
        a.len() == b.len(),
        forall|i: int| 0 <= i < b.len() ==> b[i] == a[a.len() - 1 - i],
    ensures
        block_count(a, k, 0, a.len() as int) == block_count(b, k, 0, b.len() as int),
    decreases a.len(),
{
    if a.len() > 0 {
        let a1 = a.drop_first();
        let b1 = b.drop_last();
        assert forall|i: int| 0 <= i < b1.len() implies b1[i] == a1[a1.len() - 1 - i] by {
            assert(b1[i] == b[i]);
        }
        lemma_count_reverse(a1, b1, k);
        assert(b =~= b1 + seq![b[b.len() - 1]]);
        lemma_count_concat(b1, seq![b[b.len() - 1]], k);
        assert(a =~= seq![a[0]] + a1);
        lemma_count_concat(seq![a[0]], a1, k);
        assert(block_count(seq![a[0]], k, 0, 1) == block_count(seq![b[b.len() - 1]], k, 0, 1));
    }
}

/// A decoy keeps its target's residue composition and length: the whole-peptide
/// counts and the length feature of its embedding equal the target's.
pub proof fn lemma_decoy_composition(s: Seq<u8>)
    ensures
        forall|j: int| (0 <= j < 20 || j == 60) ==> #[trigger] embedding(decoy_of(s))[j] == embedding(s)[j],
{
    let d = decoy_of(s);
    let n = s.len() as int;
    assert forall|j: int| (0 <= j < 20 || j == 60) implies #[trigger] embedding(decoy_of(s))[j] == embedding(s)[j] by {
        if j < 20 {
            if n < 2 {
                assert(d =~= s);
            } else {
                let mid = s.subrange(1, n - 1);
                let rmid = d.subrange(1, n - 1);
                assert(s =~= seq![s[0]] + mid + seq![s[n - 1]]);
                assert(d =~= seq![s[0]] + rmid + seq![s[n - 1]]);
                assert forall|i: int| 0 <= i < rmid.len() implies rmid[i] == mid[mid.len() - 1 - i] by {
                    assert(rmid[i] == d[i + 1]);
                }
                lemma_count_reverse(mid, rmid, j);
                lemma_count_concat(seq![s[0]] + mid, seq![s[n - 1]], j);
                lemma_count_concat(seq![s[0]], mid, j);
                lemma_count_concat(seq![s[0]] + rmid, seq![s[n - 1]], j);
                lemma_count_concat(seq![s[0]], rmid, j);
            }
        }
    }
}

/// Whether match `i` may train the retention model: a target whose
/// spectrum-level q-value is at most one percent.
pub open spec fn trains(labels: Seq<i8>, q: Seq<QValue>, i: int) -> bool {
    labels[i] == 1 && passes(q[i])
}

/// Positions below `k`, in order, of the matches that may train the model.
pub open spec fn training_rows(labels: Seq<i8>, q: Seq<QValue>, k: int) -> Seq<usize>
    decreases k,
{
    if k <= 0 {
        Seq::empty()
    } else if trains(labels, q, k - 1) {
        training_rows(labels, q, k - 1).push((k - 1) as usize)
    } else {
        training_rows(labels, q, k - 1)
    }
}

/// Chooses the matches that train the retention model: the positions of
/// confident targets, in order. There is no fit, and so `None`, when fewer
/// of them remain than the model has features.
pub fn training_set(labels: &Vec<i8>, q: &Vec<QValue>) -> (r: Option<Vec<usize>>)
    requires
        labels@.len() == q@.len(),
    ensures
        match r {
            Some(rows) => rows@ == training_rows(labels@, q@, labels@.len() as int) && rows@.len()
                >= FEATURES,
            None => training_rows(labels@, q@, labels@.len() as int).len() < FEATURES,
        },
{
    let mut rows: Vec<usize> = Vec::new();
    let mut i: usize = 0;
    while i < labels.len()
        invariant
            labels@.len() == q@.len(),
            i <= labels@.len(),
            rows@ == training_rows(labels@, q@, i as int),
        decreases labels@.len() - i,
    {
        let v = q[i];
        if labels[i] == 1 && (v.num as u128) * 100 <= v.den as u128 {
            rows.push(i);
        }
        i = i + 1;
    }
    if rows.len() < FEATURES {
        None
    } else {
        Some(rows)
    }
}

} // verus!
