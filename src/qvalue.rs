use vstd::prelude::*;

verus! {

/// A q-value held exactly as the fraction `num / den`; a zero denominator
/// stands for an unbounded rate (no target seen yet).
#[derive(Clone, Copy, Debug, PartialEq, Eq)]
pub struct QValue {
    pub num: usize,
    pub den: usize,
}

/// Label of a decoy match; every other label marks a target.
pub const DECOY: i8 = -1;

/// Number of decoys among the first `k` labels.
pub open spec fn decoys_seen(labels: Seq<i8>, k: int) -> nat
    decreases k,
{
    if k <= 0 {
        0
    } else {
        decoys_seen(labels, k - 1) + if labels[k - 1] == DECOY { 1nat } else { 0nat }
    }
}

/// Number of targets among the first `k` labels.
pub open spec fn targets_seen(labels: Seq<i8>, k: int) -> nat
    decreases k,
{
    if k <= 0 {
        0
    } else {
        targets_seen(labels, k - 1) + if labels[k - 1] == DECOY { 0nat } else { 1nat }
    }
}

/// Whether the fraction `a / b` is below `c / d`; a zero denominator stands
/// for an unbounded value.
pub open spec fn frac_lt(a: int, b: int, c: int, d: int) -> bool {
    b > 0 && (d == 0 || a * d < c * b)
}

/// Whether q-value `a` is at most q-value `b` (for numerators of at least one).
pub open spec fn q_le(a: QValue, b: QValue) -> bool {
    a.num * b.den <= b.num * a.den
}

/// The estimated false discovery rate of the prefix ending at rank `i`:
/// `(decoys + 1) / targets`.
pub open spec fn fdr_at(labels: Seq<i8>, i: int) -> QValue {
    QValue { num: (decoys_seen(labels, i + 1) + 1) as usize, den: targets_seen(labels, i + 1) as usize }
}

/// The q-value at rank `i` (zero-based): the least estimated false discovery
/// rate over the prefixes that end at `i` or after.
pub open spec fn q_at(labels: Seq<i8>, i: int) -> QValue
    decreases labels.len() - i,
{
    if i >= labels.len() || i < 0 {
        QValue { num: 1, den: 0 }
    } else if i == labels.len() - 1 {
        fdr_at(labels, i)
    } else {
        let rest = q_at(labels, i + 1);
        let f = fdr_at(labels, i);
        if frac_lt(f.num as int, f.den as int, rest.num as int, rest.den as int) {
            f
        } else {
            rest
        }
    }
}

proof fn lemma_product_fits(a: int, b: int)
    requires
        0 <= a <= usize::MAX,
        0 <= b <= usize::MAX,
    ensures
        a * b <= u128::MAX,
{
    assert(usize::MAX <= u64::MAX);
    assert(a * b <= u64::MAX * u64::MAX) by (nonlinear_arith)
        requires
            0 <= a <= u64::MAX,
            0 <= b <= u64::MAX,
    ;
}

proof fn lemma_seen_sum(labels: Seq<i8>, k: int)
    requires
        0 <= k <= labels.len(),
    ensures
        decoys_seen(labels, k) + targets_seen(labels, k) == k,
    decreases k,
{
    if k > 0 {
        lemma_seen_sum(labels, k - 1);
    }
}

proof fn lemma_q_shape(labels: Seq<i8>, i: int)
    requires
        0 <= i,
        labels.len() < usize::MAX,
    ensures
        1 <= q_at(labels, i).num <= labels.len() + 1,
        q_at(labels, i).den <= labels.len() + 1,
    decreases labels.len() - i,
{
    if i < labels.len() {
        lemma_q_shape(labels, i + 1);
        lemma_seen_sum(labels, i + 1);
    }
}

/// Assigns a q-value to each match of a ranked list, given the match labels
/// in rank order (best first). The estimated false discovery rate at a rank is
/// `(decoys + 1) / targets` over the matches ranked there or better; the
/// q-value is the least such rate at that rank or below it.
pub fn assign_q_values(labels: &Vec<i8>) -> (r: Vec<QValue>)
    requires
        labels.len() < usize::MAX,
    ensures
        r@.len() == labels@.len(),
        forall|i: int| 0 <= i < labels@.len() ==> r@[i] == #[trigger] q_at(labels@, i),
{
    let n = labels.len();
    let ghost s = labels@;
    // forward sweep: decoy and target counts of each prefix
    let mut decoys: Vec<usize> = Vec::new();
    let mut targets: Vec<usize> = Vec::new();
    let mut d: usize = 0;
    let mut t: usize = 0;
    let mut i: usize = 0;
    while i < n
        invariant
            s == labels@,
            n == s.len(),
            n < usize::MAX,
            i <= n,
            d == decoys_seen(s, i as int),
            t == targets_seen(s, i as int),
            decoys@.len() == i,
            targets@.len() == i,
            forall|k: int|
                0 <= k < i ==> decoys@[k] == decoys_seen(s, k + 1) && targets@[k] == targets_seen(
                    s,
                    k + 1,
                ),
        decreases n - i,
    {
        proof {
            lemma_seen_sum(s, i as int);
        }
        if labels[i] == DECOY {
            d = d + 1;
        } else {
            t = t + 1;
        }
        decoys.push(d);
        targets.push(t);
        i = i + 1;
    }
    // backward sweep: running minimum from the bottom of the list
    let mut q: Vec<QValue> = Vec::new();
    let mut k: usize = 0;
    while k < n
        invariant
            k <= n,
            q@.len() == k,
        decreases n - k,
    {
        q.push(QValue { num: 1, den: 1 });
        k = k + 1;
    }
    let mut best = QValue { num: 1, den: 0 };
    let mut j: usize = n;
    while j > 0
        invariant
            s == labels@,
            n == s.len(),
            n < usize::MAX,
            j <= n,
            q@.len() == n,
            decoys@.len() == n,
            targets@.len() == n,
            forall|k: int|
                0 <= k < n ==> decoys@[k] == decoys_seen(s, k + 1) && targets@[k] == targets_seen(
                    s,
                    k + 1,
                ),
            best == q_at(s, j as int),
            forall|k: int| j <= k < n ==> q@[k] == #[trigger] q_at(s, k),
        decreases j,
    {
        j = j - 1;
        proof {
            lemma_seen_sum(s, j + 1);
            lemma_q_shape(s, j + 1);
            lemma_product_fits(decoys@[j as int] + 1, best.den as int);
            lemma_product_fits(best.num as int, targets@[j as int] as int);
        }
        let dj = decoys[j] + 1;
        let tj = targets[j];
        let lt = tj > 0 && (best.den == 0 || (dj as u128) * (best.den as u128) < (best.num as u128)
            * (tj as u128));
        if j == n - 1 || lt {
            best = QValue { num: dj, den: tj };
        }
        q.set(j, best);
    }
    q
}

/// Whether q-value `q` is at most one percent.
pub open spec fn passes(q: QValue) -> bool {
    100 * q.num <= q.den
}

/// Number of q-values among the first `k` of `q` that are at most one percent.
pub open spec fn passing_count(q: Seq<QValue>, k: int) -> nat
    decreases k,
{
    if k <= 0 {
        0
    } else {
        passing_count(q, k - 1) + if passes(q[k - 1]) { 1nat } else { 0nat }
    }
}

proof fn lemma_passing_bound(q: Seq<QValue>, k: int)
    ensures
        passing_count(q, k) <= if k < 0 { 0 } else { k },
    decreases k,
{
    if k > 0 {
        lemma_passing_bound(q, k - 1);
    }
}

/// Number of q-values that are at most one percent.
pub fn count_passing(q: &Vec<QValue>) -> (r: usize)
    ensures
        r == passing_count(q@, q@.len() as int),
{
    let mut c: usize = 0;
    let mut i: usize = 0;
    while i < q.len()
        invariant
            i <= q@.len(),
            c == passing_count(q@, i as int),
        decreases q@.len() - i,
    {
        proof {
            lemma_passing_bound(q@, i as int);
        }
        let v = q[i];
        if (v.num as u128) * 100 <= v.den as u128 {
            c = c + 1;
        }
        i = i + 1;
    }
    c
}

proof fn lemma_q_step(labels: Seq<i8>, i: int)
    requires
        0 <= i < labels.len() - 1,
        labels.len() < usize::MAX,
    ensures
        q_le(q_at(labels, i), q_at(labels, i + 1)),
{
    lemma_seen_sum(labels, i + 1);
    lemma_q_shape(labels, i + 1);
}

proof fn lemma_q_le_trans(a: QValue, b: QValue, c: QValue)
    requires
        a.num >= 1,
        b.num >= 1,
        c.num >= 1,
        q_le(a, b),
        q_le(b, c),
    ensures
        q_le(a, c),
{
    let (an, ad, bn, bd, cn, cd) = (
        a.num as int,
        a.den as int,
        b.num as int,
        b.den as int,
        c.num as int,
        c.den as int,
    );
    if cd == 0 {
        assert(an * cd == 0) by (nonlinear_arith)
            requires
                cd == 0,
        ;
        assert(cn * ad >= 0) by (nonlinear_arith)
            requires
                cn >= 0,
                ad >= 0,
        ;
    } else if bd == 0 {
        // b unbounded and b <= c force c unbounded
        assert(bn * cd >= cd) by (nonlinear_arith)
            requires
                bn >= 1,
                cd >= 0,
        ;
        assert(cn * bd == 0) by (nonlinear_arith)
            requires
                bd == 0,
        ;
    } else if ad == 0 {
        // a unbounded and a <= b force b unbounded
        assert(an * bd >= bd) by (nonlinear_arith)
            requires
                an >= 1,
                bd >= 0,
        ;
        assert(bn * ad == 0) by (nonlinear_arith)
            requires
                ad == 0,
        ;
    } else {
        assert(an * cd <= cn * ad) by (nonlinear_arith)
            requires
                an >= 0,
                ad > 0,
                bn >= 0,
                bd > 0,
                cn >= 0,
                cd > 0,
                an * bd <= bn * ad,
                bn * cd <= cn * bd,
        {
            assert(an * bd * cd <= bn * ad * cd);
            assert(bn * cd * ad <= cn * bd * ad);
            assert(an * cd * bd <= cn * ad * bd);
        }
    }
}

/// Q-values never decrease from a better rank to a worse one: read from the
/// bottom of the ranked list to the top, they never increase.
pub proof fn lemma_q_values_monotone(labels: Seq<i8>, i: int, j: int)
    requires
        labels.len() < usize::MAX,
        0 <= i <= j < labels.len(),
    ensures
        q_le(q_at(labels, i), q_at(labels, j)),
    decreases j - i,
{
    lemma_q_shape(labels, i);
    if i < j {
        lemma_q_step(labels, i);
        lemma_q_values_monotone(labels, i + 1, j);
        lemma_q_shape(labels, i + 1);
        lemma_q_shape(labels, j);
        lemma_q_le_trans(q_at(labels, i), q_at(labels, i + 1), q_at(labels, j));
    }
}

} // verus!
