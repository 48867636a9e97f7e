use crate::record::Record;
use vstd::arithmetic::power2::{lemma2_to64, lemma_pow2_unfold, pow2};
use vstd::prelude::*;

verus! {

pub open spec fn log2_floor(n: nat) -> nat
    decreases n,
{
    if n < 2 {
        0
    } else {
        1 + log2_floor(n / 2)
    }
}

/// The next `bits` binary digits of log2 of `x / 2^32` (for `x` in `[2^32, 2^33)`), appended
/// to `acc`: square, and a square of 2 or more gives a 1 and is halved. Each square keeps 32
/// fractional bits.
pub open spec fn log_bits(x: nat, bits: nat, acc: nat) -> nat
    decreases bits,
{
    if bits == 0 {
        acc
    } else {
        let sq = (x * x) / 0x1_0000_0000;
        if sq >= 0x2_0000_0000 {
            log_bits(sq / 2, (bits - 1) as nat, acc * 2 + 1)
        } else {
            log_bits(sq, (bits - 1) as nat, acc * 2)
        }
    }
}

/// Base-2 logarithm of `n` in units of 1/65536 bit, truncated: the integer part, then 16
/// binary digits of the fraction; 0 for 0.
pub open spec fn log2_fixed(n: nat) -> nat {
    if n == 0 {
        0
    } else {
        let k = log2_floor(n);
        k * 65536 + log_bits((n * 0x1_0000_0000) / pow2(k), 16, 0)
    }
}

proof fn lemma_log2_floor_exact(n: nat, k: nat)
    requires
        pow2(k) <= n < 2 * pow2(k),
    ensures
        log2_floor(n) == k,
    decreases k,
{
    lemma2_to64();
    if k > 0 {
        lemma_pow2_unfold(k);
        lemma_log2_floor_exact(n / 2, (k - 1) as nat);
    }
}

/// Computes `log2_fixed(n)`.
pub fn log2_fixed_of(n: usize) -> (r: u128)
    ensures
        r == log2_fixed(n as nat),
        r < 64 * 65536,
{
    if n == 0 {
        return 0;
    }
    let mut k: u128 = 0;
    let mut p: usize = 1;
    proof {
        lemma2_to64();
    }
    while p <= n / 2
        invariant
            1 <= p <= n,
            p == pow2(k as nat),
            k <= 63,
        decreases n - p,
    {
        proof {
            lemma2_to64();
            lemma_pow2_unfold((k + 1) as nat);
        }
        p = p * 2;
        k = k + 1;
    }
    proof {
        lemma_log2_floor_exact(n as nat, k as nat);
    }
    let mut x: u128 = (n as u128) * 0x1_0000_0000 / (p as u128);
    assert(x < 0x2_0000_0000) by (nonlinear_arith)
        requires
            n < 2 * p,
            p > 0,
            x == (n as int) * 0x1_0000_0000 / (p as int),
    {
        assert((n as int) * 0x1_0000_0000 < (p as int) * 0x2_0000_0000);
    }
    let mut frac: u128 = 0;
    let mut i: u128 = 0;
    while i < 16
        invariant
            i <= 16,
            x < 0x2_0000_0000,
            frac < pow2(i as nat),
            log_bits(x as nat, (16 - i) as nat, frac as nat) == log_bits(
                (n as nat * 0x1_0000_0000) / pow2(k as nat),
                16,
                0,
            ),
        decreases 16 - i,
    {
        proof {
            lemma2_to64();
            lemma_pow2_unfold((i + 1) as nat);
        }
        assert((x as int) * (x as int) <= (x as int) * 0x2_0000_0000) by (nonlinear_arith)
            requires
                x < 0x2_0000_0000,
        ;
        let y = x * x / 0x1_0000_0000;
        assert(y < 0x4_0000_0000);
        if y >= 0x2_0000_0000 {
            x = y / 2;
            frac = frac * 2 + 1;
        } else {
            x = y;
            frac = frac * 2;
        }
        i = i + 1;
    }
    proof {
        lemma2_to64();
    }
    assert(frac < 65536);
    k * 65536 + frac
}

/// Number of members of `sub` whose record has value `v` for feature `f` and, when `c`
/// is not negative, class `c`.
pub open spec fn count_in(data: Seq<Record>, sub: Seq<usize>, f: int, v: int, c: int) -> nat
    decreases sub.len(),
{
    if sub.len() == 0 {
        0
    } else {
        let r = data[sub.last() as int];
        count_in(data, sub.drop_last(), f, v, c) + if r.features@[f] == v && (c < 0 || r.class
            == c) {
            1nat
        } else {
            0nat
        }
    }
}

/// Number of members of `sub` whose record has class `c`.
pub open spec fn class_count_in(data: Seq<Record>, sub: Seq<usize>, c: int) -> nat
    decreases sub.len(),
{
    if sub.len() == 0 {
        0
    } else {
        class_count_in(data, sub.drop_last(), c) + if data[sub.last() as int].class == c {
            1nat
        } else {
            0nat
        }
    }
}

/// Sum, over the first `k` members of `sub`, of the logarithm of the size of the member's
/// group under feature `f` minus the logarithm of the size of its class within that group.
pub open spec fn score_prefix(data: Seq<Record>, sub: Seq<usize>, f: int, k: int) -> int
    decreases k,
{
    if k <= 0 {
        0
    } else {
        let r = data[sub[k - 1] as int];
        let v = r.features@[f] as int;
        score_prefix(data, sub, f, k - 1) + log2_fixed(count_in(data, sub, f, v, -1))
            - log2_fixed(count_in(data, sub, f, v, r.class as int))
    }
}

/// `|sub|` times the weighted entropy of the class distribution after splitting `sub`
/// on feature `f`: the sum over groups `v` and classes `c` of `n_vc * (lg n_v - lg n_vc)`.
pub open spec fn split_score(data: Seq<Record>, sub: Seq<usize>, f: int) -> int {
    score_prefix(data, sub, f, sub.len() as int)
}

/// Every member of `sub` indexes a record of `data` with `features` features.
pub open spec fn subset_ok(data: Seq<Record>, sub: Seq<usize>, features: nat) -> bool {
    forall|k: int|
        0 <= k < sub.len() ==> (#[trigger] sub[k]) < data.len() && data[sub[k] as int].features@.len()
            == features
}

/// Counts the members of `sub` with value `v` for feature `f` (and class `c`, if given).
pub fn count_matching(
    data: &[Record],
    sub: &Vec<usize>,
    f: usize,
    v: usize,
    c: Option<usize>,
    features: usize,
) -> (r: usize)
    requires
        subset_ok(data@, sub@, features as nat),
        f < features,
    ensures
        r == count_in(
            data@,
            sub@,
            f as int,
            v as int,
            match c {
                Some(x) => x as int,
                None => -1,
            },
        ),
        r <= sub@.len(),
{
    let ghost n = features as nat;
    let ghost ci: int = match c {
        Some(x) => x as int,
        None => -1,
    };
    let mut count: usize = 0;
    let mut k: usize = 0;
    while k < sub.len()
        invariant
            subset_ok(data@, sub@, n),
            f < n,
            k <= sub@.len(),
            ci == match c {
                Some(x) => x as int,
                None => -1,
            },
            count == count_in(data@, sub@.take(k as int), f as int, v as int, ci),
            count <= k,
        decreases sub@.len() - k,
    {
        let r = &data[sub[k]];
        assert(sub@.take(k + 1).drop_last() =~= sub@.take(k as int));
        assert(sub@.take(k + 1).last() == sub@[k as int]);
        assert(subset_ok(data@, sub@, n) ==> sub@[k as int] < data@.len());
        let class_ok = match c {
            Some(x) => r.class == x,
            None => true,
        };
        if r.features[f] == v && class_ok {
            count = count + 1;
        }
        k = k + 1;
    }
    assert(sub@.take(k as int) =~= sub@);
    count
}

/// Counts, for each class below `class_total`, the members of `sub` of that class.
pub fn build_distribution(data: &[Record], sub: &Vec<usize>, class_total: usize) -> (d: Vec<usize>)
    requires
        forall|k: int|
            0 <= k < sub@.len() ==> (#[trigger] sub@[k]) < data@.len() && data@[sub@[k] as int].class
                < class_total,
    ensures
        d@.len() == class_total,
        forall|c: int| 0 <= c < class_total ==> #[trigger] d@[c] == class_count_in(data@, sub@, c),
{
    let mut d: Vec<usize> = Vec::with_capacity(class_total);
    let mut c: usize = 0;
    while c < class_total
        invariant
            c <= class_total,
            d@.len() == c,
            forall|q: int| 0 <= q < c ==> d@[q] == 0,
        decreases class_total - c,
    {
        d.push(0);
        c = c + 1;
    }
    let mut k: usize = 0;
    while k < sub.len()
        invariant
            k <= sub@.len(),
            d@.len() == class_total,
            forall|j: int|
                0 <= j < sub@.len() ==> (#[trigger] sub@[j]) < data@.len() && data@[sub@[j] as int].class
                    < class_total,
            forall|q: int|
                0 <= q < class_total ==> #[trigger] d@[q] == class_count_in(data@, sub@.take(k as int), q)
                    && d@[q] <= k,
        decreases sub@.len() - k,
    {
        let cls = data[sub[k]].class;
        assert(sub@.take(k + 1).drop_last() =~= sub@.take(k as int));
        d.set(cls, d[cls] + 1);
        k = k + 1;
    }
    assert(sub@.take(k as int) =~= sub@);
    d
}

/// Computes `split_score` of `sub` on feature `f`: lower is a better split.
pub fn split_score_of(data: &[Record], sub: &Vec<usize>, f: usize, features: usize) -> (r: i128)
    requires
        subset_ok(data@, sub@, features as nat),
        f < features,
    ensures
        r == split_score(data@, sub@, f as int),
{
    let mut acc: i128 = 0;
    let mut k: usize = 0;
    while k < sub.len()
        invariant
            subset_ok(data@, sub@, features as nat),
            f < features,
            k <= sub@.len(),
            acc == score_prefix(data@, sub@, f as int, k as int),
            -(k as int) * 4194304 <= acc <= (k as int) * 4194304,
        decreases sub@.len() - k,
    {
        let r = &data[sub[k]];
        let v = r.features[f];
        let group = count_matching(data, sub, f, v, None, features);
        let same = count_matching(data, sub, f, v, Some(r.class), features);
        let lg_group = log2_fixed_of(group);
        let lg_same = log2_fixed_of(same);
        assert(0 <= lg_group < 64 * 65536 && 0 <= lg_same < 64 * 65536);
        acc = acc + lg_group as i128 - lg_same as i128;
        k = k + 1;
    }
    acc
}

proof fn lemma_pure_counts(data: Seq<Record>, sub: Seq<usize>, f: int, v: int, c: int)
    requires
        c >= 0,
        forall|k: int| 0 <= k < sub.len() ==> data[(#[trigger] sub[k]) as int].class == c,
    ensures
        count_in(data, sub, f, v, c) == count_in(data, sub, f, v, -1),
    decreases sub.len(),
{
    if sub.len() > 0 {
        let s = sub.drop_last();
        assert forall|k: int| 0 <= k < s.len() implies data[(#[trigger] s[k]) as int].class == c by {
            assert(s[k] == sub[k]);
        }
        lemma_pure_counts(data, s, f, v, c);
        assert(data[sub[sub.len() - 1] as int].class == c);
    }
}

proof fn lemma_pure_prefix(data: Seq<Record>, sub: Seq<usize>, f: int, c: int, k: int)
    requires
        c >= 0,
        k <= sub.len(),
        forall|j: int| 0 <= j < sub.len() ==> data[(#[trigger] sub[j]) as int].class == c,
    ensures
        score_prefix(data, sub, f, k) == 0,
    decreases k,
{
    if k > 0 {
        lemma_pure_prefix(data, sub, f, c, k - 1);
        let v = data[sub[k - 1] as int].features@[f] as int;
        lemma_pure_counts(data, sub, f, v, c);
        assert(data[sub[k - 1] as int].class == c);
    }
}

/// A subset whose records all share one class scores exactly 0 on every feature: a pure
/// distribution carries no entropy, and splitting it cannot score below 0.
pub proof fn lemma_pure_split_scores_zero(data: Seq<Record>, sub: Seq<usize>, f: int, c: int)
    requires
        c >= 0,
        forall|j: int| 0 <= j < sub.len() ==> data[(#[trigger] sub[j]) as int].class == c,
    ensures
        split_score(data, sub, f) == 0,
{
    lemma_pure_prefix(data, sub, f, c, sub.len() as int);
}

} // verus!
