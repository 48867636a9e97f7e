use crate::record::Record;
use rand::seq::SliceRandom;
use rand::thread_rng;
use vstd::prelude::*;
use vstd::string::{StrSliceExecFns, StringExecFns, StringSliceAdditionalSpecFns};

verus! {

/// The domain of one attribute.
#[derive(Debug)]
pub enum Class {
    /// Categorical labels, in declaration order.
    Nominal(Vec<String>),
    /// Floor-bucketed numbers: the number of buckets, one more than the largest seen.
    Continuous(usize),
}

/// A loaded data set: the records, the attribute names and their domains (the class last).
#[derive(Debug)]
pub struct Arff {
    pub records: Vec<Record>,
    pub labels: Vec<String>,
    pub classes: Vec<Class>,
}

/// Why loading or training could not proceed.
#[derive(Debug)]
pub enum ArffError {
    MalformedAttributeLine,
    EmptyDataRow,
    UnmatchedCategoricalValue,
    InvalidNumericValue,
    EmptyTrainingSet,
}

/// Number of values in an attribute's domain.
pub open spec fn domain_size(c: Class) -> nat {
    match c {
        Class::Nominal(labels) => labels@.len(),
        Class::Continuous(size) => size as nat,
    }
}

/// A catalog has at least the class attribute, and that one is categorical.
pub open spec fn valid_catalog(cat: Seq<Class>) -> bool {
    &&& cat.len() >= 1
    &&& cat.last() is Nominal
}

pub open spec fn feature_count(cat: Seq<Class>) -> nat {
    (cat.len() - 1) as nat
}

pub open spec fn class_count(cat: Seq<Class>) -> nat {
    domain_size(cat.last())
}

/// Every index of the record lies in its attribute's domain.
pub open spec fn valid_record(cat: Seq<Class>, r: Record) -> bool {
    &&& r.features@.len() == feature_count(cat)
    &&& r.class < class_count(cat)
    &&& forall|f: int| 0 <= f < r.features@.len() ==> r.features@[f] < domain_size(#[trigger] cat[f])
}

pub open spec fn valid_records(cat: Seq<Class>, rs: Seq<Record>) -> bool {
    forall|i: int| 0 <= i < rs.len() ==> valid_record(cat, #[trigger] rs[i])
}

/// Size of an attribute's domain.
pub fn domain_len(c: &Class) -> (r: usize)
    ensures
        r == domain_size(*c),
{
    match c {
        Class::Nominal(labels) => labels.len(),
        Class::Continuous(size) => *size,
    }
}

pub open spec fn is_digit(c: char) -> bool {
    '0' <= c <= '9'
}

pub open spec fn all_digits(t: Seq<char>) -> bool {
    forall|i: int| 0 <= i < t.len() ==> is_digit(#[trigger] t[i])
}

/// The number that a string of decimal digits denotes.
pub open spec fn digits_value(t: Seq<char>) -> nat
    decreases t.len(),
{
    if t.len() == 0 {
        0
    } else {
        digits_value(t.drop_last()) * 10 + ((t.last() as u32) - ('0' as u32)) as nat
    }
}

/// End of the run of digits in `t` that starts at `i`.
pub open spec fn digit_run(t: Seq<char>, i: int) -> int
    decreases t.len() - i,
{
    if 0 <= i < t.len() && is_digit(t[i]) {
        digit_run(t, i + 1)
    } else {
        i
    }
}

/// Length of a leading `+` or `-`.
pub open spec fn sign_len(t: Seq<char>) -> int {
    if t.len() > 0 && (t[0] == '+' || t[0] == '-') {
        1
    } else {
        0
    }
}

/// End of the integer digits of a decimal float.
pub open spec fn int_end(t: Seq<char>) -> int {
    digit_run(t, sign_len(t))
}

pub open spec fn has_point(t: Seq<char>) -> bool {
    int_end(t) < t.len() && t[int_end(t)] == '.'
}

/// Start of the fraction digits.
pub open spec fn frac_start(t: Seq<char>) -> int {
    if has_point(t) {
        int_end(t) + 1
    } else {
        int_end(t)
    }
}

/// End of the fraction digits, where an exponent may begin.
pub open spec fn frac_end(t: Seq<char>) -> int {
    if has_point(t) {
        digit_run(t, frac_start(t))
    } else {
        int_end(t)
    }
}

/// Start of the exponent digits, after `e` or `E` and an optional sign.
pub open spec fn exp_digits_start(t: Seq<char>) -> int {
    let m = frac_end(t);
    if m + 1 < t.len() && (t[m + 1] == '+' || t[m + 1] == '-') {
        m + 2
    } else {
        m + 1
    }
}

/// What follows the mantissa is nothing, or an exponent: `e` or `E`, an optional sign and
/// at least one digit, up to the end.
pub open spec fn exp_ok(t: Seq<char>) -> bool {
    let m = frac_end(t);
    m == t.len() || ((t[m] == 'e' || t[m] == 'E') && exp_digits_start(t) < t.len() && digit_run(
        t,
        exp_digits_start(t),
    ) == t.len())
}

/// The decimal exponent written after the mantissa, 0 when there is none.
pub open spec fn exponent(t: Seq<char>) -> int {
    let m = frac_end(t);
    if m >= t.len() {
        0
    } else {
        let v = digits_value(t.subrange(exp_digits_start(t), t.len() as int)) as int;
        if t[m + 1] == '-' {
            -v
        } else {
            v
        }
    }
}

/// `t` is a decimal floating-point numeral: an optional sign, digits with an optional point
/// and fraction (at least one digit in all), and an optional exponent.
pub open spec fn is_float(t: Seq<char>) -> bool {
    &&& (int_end(t) - sign_len(t)) + (frac_end(t) - frac_start(t)) >= 1
    &&& exp_ok(t)
}

/// The digits of the mantissa, integer part then fraction.
pub open spec fn mantissa(t: Seq<char>) -> Seq<char> {
    t.subrange(sign_len(t), int_end(t)) + t.subrange(frac_start(t), frac_end(t))
}

/// The first `k` digits of `m`, with zeros past its end.
pub open spec fn padded(m: Seq<char>, k: nat) -> Seq<char> {
    Seq::new(k, |i: int| if i < m.len() { m[i] } else { '0' })
}

/// The floor of the numeral `t`, or 0 when that is negative.
pub open spec fn float_floor(t: Seq<char>) -> nat {
    let k = (int_end(t) - sign_len(t)) + exponent(t);
    if (sign_len(t) == 1 && t[0] == '-') || k <= 0 {
        0
    } else {
        digits_value(padded(mantissa(t), k as nat))
    }
}

/// The bucket of a numeral: its floor (0 for a negative one), when it is a decimal float
/// whose floor is below `usize::MAX`.
pub open spec fn bucket_spec(t: Seq<char>) -> Option<nat> {
    if is_float(t) && float_floor(t) < usize::MAX {
        Some(float_floor(t))
    } else {
        None
    }
}

pub open spec fn pow10(n: nat) -> nat
    decreases n,
{
    if n == 0 {
        1
    } else {
        10 * pow10((n - 1) as nat)
    }
}

proof fn lemma_pow10_big(n: nat)
    requires
        n >= 25,
    ensures
        pow10(n) > usize::MAX,
    decreases n,
{
    if n > 25 {
        lemma_pow10_big((n - 1) as nat);
    } else {
        reveal_with_fuel(pow10, 26);
    }
}

proof fn lemma_all_zero_value(s: Seq<char>)
    requires
        forall|i: int| 0 <= i < s.len() ==> s[i] == '0',
    ensures
        digits_value(s) == 0,
    decreases s.len(),
{
    if s.len() > 0 {
        lemma_all_zero_value(s.drop_last());
    }
}

proof fn lemma_value_lower(s: Seq<char>, z: int)
    requires
        0 <= z < s.len(),
        all_digits(s),
        s[z] != '0',
    ensures
        digits_value(s) >= pow10((s.len() - 1 - z) as nat),
    decreases s.len(),
{
    let d = s.drop_last();
    if z < s.len() - 1 {
        assert(all_digits(d)) by {
            assert forall|i: int| 0 <= i < d.len() implies is_digit(#[trigger] d[i]) by {
                assert(d[i] == s[i]);
            }
        }
        assert(d[z] == s[z]);
        lemma_value_lower(d, z);
    } else {
        assert(is_digit(s[z]));
    }
}

proof fn lemma_digits_grow(t: Seq<char>, j: int, k: int)
    requires
        0 <= j <= k <= t.len(),
        all_digits(t.take(k)),
    ensures
        digits_value(t.take(j)) <= digits_value(t.take(k)),
    decreases k,
{
    if j < k {
        assert(t.take(k).drop_last() =~= t.take(k - 1));
        assert(all_digits(t.take(k - 1))) by {
            assert forall|i: int| 0 <= i < k - 1 implies is_digit(#[trigger] t.take(k - 1)[i]) by {
                assert(t.take(k - 1)[i] == t.take(k)[i]);
            }
        }
        lemma_digits_grow(t, j, k - 1);
    }
}

/// End of the digit run of `s` from `i`.
fn digit_run_of(s: &str, n: usize, i: usize) -> (r: usize)
    requires
        n == s@.len(),
        i <= n,
    ensures
        i <= r <= n,
        r == digit_run(s@, i as int),
        all_digits(s@.subrange(i as int, r as int)),
{
    let mut k = i;
    while k < n && '0' <= s.get_char(k) && s.get_char(k) <= '9'
        invariant
            i <= k <= n,
            n == s@.len(),
            digit_run(s@, k as int) == digit_run(s@, i as int),
            forall|j: int| i <= j < k ==> is_digit(#[trigger] s@[j]),
        decreases n - k,
    {
        k = k + 1;
    }
    assert(all_digits(s@.subrange(i as int, k as int))) by {
        assert forall|j: int| 0 <= j < k - i implies is_digit(#[trigger] s@.subrange(i as int, k as int)[j]) by {
            assert(s@.subrange(i as int, k as int)[j] == s@[i + j]);
        }
    }
    k
}

/// The value of the digits `s[lo..n]`, or `cap` if that is larger.
fn capped_value(s: &str, n: usize, lo: usize, cap: u128) -> (r: u128)
    requires
        n == s@.len(),
        lo <= n,
        all_digits(s@.subrange(lo as int, n as int)),
        cap <= 0x1_0000_0000_0000_1000,
    ensures
        r == if digits_value(s@.subrange(lo as int, n as int)) < cap {
            digits_value(s@.subrange(lo as int, n as int))
        } else {
            cap as nat
        },
{
    let ghost t = s@;
    let mut v: u128 = 0;
    let mut j = lo;
    while j < n
        invariant
            n == s@.len(),
            t == s@,
            lo <= j <= n,
            all_digits(t.subrange(lo as int, n as int)),
            cap <= 0x1_0000_0000_0000_1000,
            v == if digits_value(t.subrange(lo as int, j as int)) < cap {
                digits_value(t.subrange(lo as int, j as int))
            } else {
                cap as nat
            },
        decreases n - j,
    {
        assert(t.subrange(lo as int, j + 1).drop_last() =~= t.subrange(lo as int, j as int));
        assert(t.subrange(lo as int, j + 1).last() == t[j as int]);
        assert(is_digit(t.subrange(lo as int, n as int)[j - lo]));
        assert(t.subrange(lo as int, n as int)[j - lo] == t[j as int]);
        let d = (s.get_char(j) as u32 - '0' as u32) as u128;
        if v < cap {
            let w = v * 10 + d;
            v = if w < cap {
                w
            } else {
                cap
            };
        }
        j = j + 1;
    }
    v
}

/// The bucket of a decimal floating-point numeral such as `3.9`, `-0.5`, `+2` or `1e3`: its
/// floor, or 0 for a negative number. `InvalidNumericValue` for any other text, or for a
/// floor of `usize::MAX` or more.
#[verifier::rlimit(60)]
pub fn bucket_of(text: &String) -> (r: Result<usize, ArffError>)
    ensures
        match r {
            Ok(b) => bucket_spec(text@) == Some(b as nat),
            Err(e) => e is InvalidNumericValue && bucket_spec(text@) is None,
        },
{
    let s = text.as_str();
    let n = s.unicode_len();
    let ghost t = text@;
    assert(s@ == t);
    let mut a: usize = 0;
    let mut neg = false;
    if n > 0 {
        let c = s.get_char(0);
        if c == '+' || c == '-' {
            a = 1;
            neg = c == '-';
        }
    }
    assert(a == sign_len(t));
    assert(neg == (sign_len(t) == 1 && t[0] == '-'));
    let ie = digit_run_of(s, n, a);
    let mut fs = ie;
    let mut fe = ie;
    if ie < n && s.get_char(ie) == '.' {
        fs = ie + 1;
        fe = digit_run_of(s, n, fs);
    }
    assert(fs == frac_start(t) && fe == frac_end(t));
    if (ie - a) + (fe - fs) == 0 {
        return Err(ArffError::InvalidNumericValue);
    }
    let cap: u128 = n as u128 + 25;
    let mut e_neg = false;
    let mut e_val: u128 = 0;
    if fe < n {
        let c = s.get_char(fe);
        if !(c == 'e' || c == 'E') {
            return Err(ArffError::InvalidNumericValue);
        }
        let mut es = fe + 1;
        if es < n {
            let c2 = s.get_char(es);
            if c2 == '+' || c2 == '-' {
                e_neg = c2 == '-';
                es = es + 1;
            }
        }
        assert(es == exp_digits_start(t));
        if es >= n {
            return Err(ArffError::InvalidNumericValue);
        }
        let ee = digit_run_of(s, n, es);
        if ee != n {
            return Err(ArffError::InvalidNumericValue);
        }
        e_val = capped_value(s, n, es, cap);
    }
    assert(is_float(t));
    let ghost ev = if fe < n {
        digits_value(t.subrange(exp_digits_start(t), t.len() as int)) as int
    } else {
        0
    };
    assert(exponent(t) == if e_neg { -ev } else { ev });
    if neg {
        return Ok(0);
    }
    assert(!(sign_len(t) == 1 && t[0] == '-'));
    let ilen = ie - a;
    let mlen = ilen + (fe - fs);
    let ghost m = mantissa(t);
    assert(m.len() == mlen);
    assert(all_digits(m)) by {
        assert forall|i: int| 0 <= i < m.len() implies is_digit(#[trigger] m[i]) by {
            if i < ilen {
                assert(m[i] == t.subrange(a as int, ie as int)[i]);
            } else {
                assert(m[i] == t.subrange(fs as int, fe as int)[i - ilen]);
            }
        }
    }
    let k: u128;
    if e_neg {
        if e_val >= ilen as u128 {
            return Ok(0);
        }
        k = (ilen as u128) - e_val;
    } else if e_val >= cap {
        assert(ev >= cap);
        let mut z: usize = 0;
        while z < mlen
            invariant
                z <= mlen,
                mlen == m.len(),
                ilen <= mlen,
                n == t.len(),
                s@ == t,
                m == mantissa(t),
                a + ilen == ie,
                ie <= fs,
                fs + (mlen - ilen) == fe,
                fe <= n,
                a == sign_len(t),
                ie == int_end(t),
                fs == frac_start(t),
                fe == frac_end(t),
                exponent(t) >= cap as int,
                cap == n + 25,
                mlen <= n,
                all_digits(m),
                is_float(t),
                t == text@,
                !(sign_len(t) == 1 && t[0] == '-'),
                forall|i: int| 0 <= i < z ==> m[i] == '0',
            decreases mlen - z,
        {
            let c = if z < ilen {
                s.get_char(a + z)
            } else {
                s.get_char(fs + (z - ilen))
            };
            if z < ilen {
                assert(m[z as int] == t.subrange(a as int, ie as int)[z as int]);
            } else {
                assert(m[z as int] == t.subrange(fs as int, fe as int)[z - ilen]);
            }
            assert(c == m[z as int]);
            if c != '0' {
                proof {
                    let kk = ((ie - a) + exponent(t)) as nat;
                    let p = padded(m, kk);
                    assert(p[z as int] == m[z as int]);
                    assert(all_digits(p)) by {
                        assert forall|i: int| 0 <= i < p.len() implies is_digit(#[trigger] p[i]) by {
                            if i < m.len() {
                                assert(is_digit(m[i]));
                            }
                        }
                    }
                    lemma_value_lower(p, z as int);
                    lemma_pow10_big((p.len() - 1 - z) as nat);
                    assert(float_floor(t) == digits_value(p));
                    assert(float_floor(t) > usize::MAX);
                }
                return Err(ArffError::InvalidNumericValue);
            }
            z = z + 1;
        }
        proof {
            let kk = ((ie - a) + exponent(t)) as nat;
            lemma_all_zero_value(padded(m, kk));
            assert(float_floor(t) == 0);
        }
        return Ok(0);
    } else {
        k = ilen as u128 + e_val;
    }
    assert(k as int == (ie - a) + exponent(t));
    let mut value: usize = 0;
    let mut j: u128 = 0;
    while j < k
        invariant
            j <= k,
            k <= 2 * n + 25,
            a == sign_len(t),
            ie == int_end(t),
            fs == frac_start(t),
            fe == frac_end(t),
            !(sign_len(t) == 1 && t[0] == '-'),
            is_float(t),
            t == text@,
            k as int == (ie - a) + exponent(t),
            mlen == m.len(),
            ilen <= mlen,
            n == t.len(),
            s@ == t,
            m == mantissa(t),
            all_digits(m),
            a + ilen == ie,
            ie <= fs,
            fs + (mlen - ilen) == fe,
            fe <= n,
            value == digits_value(padded(m, j as nat)),
            value < usize::MAX,
        decreases k - j,
    {
        let c = if j < mlen as u128 {
            let jj = j as usize;
            if jj < ilen {
                assert(m[jj as int] == t.subrange(a as int, ie as int)[jj as int]);
                s.get_char(a + jj)
            } else {
                assert(m[jj as int] == t.subrange(fs as int, fe as int)[jj - ilen]);
                s.get_char(fs + (jj - ilen))
            }
        } else {
            '0'
        };
        assert(c == padded(m, (j + 1) as nat)[j as int]);
        assert(padded(m, (j + 1) as nat).drop_last() =~= padded(m, j as nat));
        assert(is_digit(c));
        let d = (c as u32 - '0' as u32) as usize;
        if value > (usize::MAX - 1 - d) / 10 {
            proof {
                let p = padded(m, k as nat);
                assert(all_digits(p)) by {
                    assert forall|i: int| 0 <= i < p.len() implies is_digit(#[trigger] p[i]) by {
                        if i < m.len() {
                            assert(is_digit(m[i]));
                        }
                    }
                }
                assert(digits_value(padded(m, (j + 1) as nat)) == value * 10 + d);
                assert(value * 10 + d >= usize::MAX) by (nonlinear_arith)
                    requires
                        value > (usize::MAX - 1 - d) / 10,
                        d <= 9,
                ;
                assert(p.take(j + 1) =~= padded(m, (j + 1) as nat));
                assert(p.take(k as int) =~= p);
                lemma_digits_grow(p, j + 1, k as int);
                assert(float_floor(t) == digits_value(p));
            }
            return Err(ArffError::InvalidNumericValue);
        }
        value = value * 10 + d;
        j = j + 1;
    }
    Ok(value)
}

/// Resolving `text` against the domain `before` gives index `idx` and leaves the domain as
/// `after`: a label's position (the first equal label), or a bucket that widens a bucketed
/// domain to hold it.
pub open spec fn resolves(before: Class, after: Class, text: Seq<char>, idx: nat) -> bool {
    match before {
        Class::Nominal(labels) => {
            &&& after == before
            &&& idx < labels@.len()
            &&& labels@[idx as int]@ == text
            &&& forall|j: int| 0 <= j < idx ==> (#[trigger] labels@[j])@ != text
        },
        Class::Continuous(size) => {
            &&& bucket_spec(text) == Some(idx)
            &&& after == Class::Continuous(if size > idx { size } else { (idx + 1) as usize })
        },
    }
}

/// No way of resolving `text` against `domain` exists.
pub open spec fn unresolvable(domain: Class, text: Seq<char>) -> bool {
    match domain {
        Class::Nominal(labels) => forall|j: int| 0 <= j < labels@.len() ==> (#[trigger] labels@[j])@ != text,
        Class::Continuous(_) => bucket_spec(text) is None,
    }
}

/// `after` is `before` with some bucketed domains widened.
pub open spec fn widened(before: Seq<Class>, after: Seq<Class>) -> bool {
    &&& before.len() == after.len()
    &&& forall|i: int| 0 <= i < before.len() ==> #[trigger] widened_one(before[i], after[i])
}

pub open spec fn widened_one(a: Class, b: Class) -> bool {
    match a {
        Class::Nominal(_) => b == a,
        Class::Continuous(s) => b is Continuous && b->Continuous_0 >= s,
    }
}

/// Widening the catalog keeps every record that was valid valid.
pub proof fn lemma_widening_keeps_records(before: Seq<Class>, after: Seq<Class>, r: Record)
    requires
        valid_catalog(before),
        widened(before, after),
        valid_record(before, r),
    ensures
        valid_record(after, r),
{
    assert(widened_one(before[before.len() - 1], after[after.len() - 1]));
    assert forall|f: int| 0 <= f < r.features@.len() implies r.features@[f] < domain_size(#[trigger] after[f]) by {
        assert(widened_one(before[f], after[f]));
        assert(r.features@[f] < domain_size(before[f]));
    }
}

/// Looks `text` up in the domain: the position of the first equal label, or the bucket of
/// the numeral, widening the bucketed domain to hold it.
pub fn resolve_value(domain: &mut Class, text: &String) -> (r: Result<usize, ArffError>)
    ensures
        match r {
            Ok(i) => resolves(*old(domain), *final(domain), text@, i as nat),
            Err(e) => {
                &&& *final(domain) == *old(domain)
                &&& unresolvable(*old(domain), text@)
                &&& (*old(domain) is Nominal ==> e is UnmatchedCategoricalValue)
                &&& (*old(domain) is Continuous ==> e is InvalidNumericValue)
            },
        },
{
    let current: Option<usize> = match &*domain {
        Class::Continuous(size) => Some(*size),
        Class::Nominal(_) => None,
    };
    match current {
        Some(size) => {
            match bucket_of(text) {
                Ok(b) => {
                    let widened_size = if size > b {
                        size
                    } else {
                        b + 1
                    };
                    *domain = Class::Continuous(widened_size);
                    Ok(b)
                },
                Err(e) => Err(e),
            }
        },
        None => {
            match &*domain {
                Class::Nominal(labels) => {
                    let mut j: usize = 0;
                    while j < labels.len()
                        invariant
                            *domain == *old(domain),
                            *domain == Class::Nominal(*labels),
                            j <= labels@.len(),
                            forall|q: int| 0 <= q < j ==> (#[trigger] labels@[q])@ != text@,
                        decreases labels@.len() - j,
                    {
                        let same = labels[j].eq(text);
                        if same {
                            assert(labels@[j as int]@ == text@);
                            return Ok(j);
                        }
                        j = j + 1;
                    }
                    Err(ArffError::UnmatchedCategoricalValue)
                },
                Class::Continuous(_) => Err(ArffError::InvalidNumericValue),
            }
        },
    }
}

/// Resolves one data row, one value per attribute with the class last, widening bucketed
/// domains as needed. A row without exactly one value per attribute is `EmptyDataRow`.
pub fn parse_record(domains: &mut Vec<Class>, values: &Vec<String>) -> (r: Result<Record, ArffError>)
    requires
        valid_catalog(old(domains)@),
    ensures
        valid_catalog(final(domains)@),
        widened(old(domains)@, final(domains)@),
        (values@.len() == 0 || values@.len() != old(domains)@.len()) ==> r is Err && r->Err_0 is EmptyDataRow,
        match r {
            Ok(rec) => {
                &&& values@.len() == old(domains)@.len()
                &&& valid_record(final(domains)@, rec)
                &&& resolves(
                    old(domains)@.last(),
                    final(domains)@.last(),
                    values@.last()@,
                    rec.class as nat,
                )
                &&& forall|f: int|
                    0 <= f < rec.features@.len() ==> resolves(
                        old(domains)@[f],
                        final(domains)@[f],
                        values@[f]@,
                        #[trigger] rec.features@[f] as nat,
                    )
            },
            Err(e) => {
                &&& !(e is EmptyTrainingSet)
                &&& !(e is MalformedAttributeLine)
                &&& (values@.len() == 0 || values@.len() != old(domains)@.len() || exists|f: int|
                    0 <= f < values@.len() && #[trigger] unresolvable(final(domains)@[f], values@[f]@))
                &&& e is EmptyDataRow ==> values@.len() == 0 || values@.len() != old(domains)@.len()
                &&& !(e is EmptyDataRow) ==> values@.len() == old(domains)@.len()
                &&& e is UnmatchedCategoricalValue ==> exists|f: int|
                    0 <= f < values@.len() && final(domains)@[f] is Nominal && #[trigger] unresolvable(
                        final(domains)@[f],
                        values@[f]@,
                    )
                &&& e is InvalidNumericValue ==> exists|f: int|
                    0 <= f < values@.len() && final(domains)@[f] is Continuous && #[trigger] unresolvable(
                        final(domains)@[f],
                        values@[f]@,
                    )
            },
        },
{
    let n = domains.len();
    assert(widened_one(domains@.last(), domains@.last()));
    assert forall|i: int| 0 <= i < domains@.len() implies #[trigger] widened_one(domains@[i], domains@[i]) by {}
    if values.len() == 0 || values.len() != n {
        return Err(ArffError::EmptyDataRow);
    }
    let ghost start = domains@;
    let mut resolved: Vec<usize> = Vec::with_capacity(n);
    let mut i: usize = 0;
    while i < n
        invariant
            n == start.len(),
            n == values@.len(),
            n >= 1,
            valid_catalog(start),
            start == old(domains)@,
            widened(start, domains@),
            i <= n,
            resolved@.len() == i,
            forall|q: int| i <= q < n ==> domains@[q] == start[q],
            forall|q: int|
                0 <= q < i ==> resolves(start[q], domains@[q], values@[q]@, #[trigger] resolved@[q] as nat),
        decreases n - i,
    {
        let ghost before = domains@;
        let step = resolve_value(&mut domains[i], &values[i]);
        match step {
            Ok(idx) => {
                resolved.push(idx);
                assert forall|q: int| 0 <= q < n implies #[trigger] widened_one(start[q], domains@[q]) by {
                    assert(widened_one(start[q], before[q]));
                }
                assert forall|q: int| 0 <= q < i + 1 implies resolves(start[q], domains@[q], values@[q]@, #[trigger] resolved@[q] as nat) by {
                    if q < i {
                        assert(resolved@[q] == resolved@.drop_last()[q]);
                    }
                }
            },
            Err(e) => {
                assert(domains@ =~= before);
                assert(valid_catalog(domains@)) by {
                    assert(widened_one(start[n - 1], domains@[n - 1]));
                }
                assert(unresolvable(domains@[i as int], values@[i as int]@));
                return Err(e);
            },
        }
        i = i + 1;
    }
    let class = resolved[n - 1];
    let mut features: Vec<usize> = Vec::with_capacity(n - 1);
    let mut f: usize = 0;
    while f < n - 1
        invariant
            n == resolved@.len(),
            n >= 1,
            f <= n - 1,
            features@ == resolved@.take(f as int),
        decreases n - 1 - f,
    {
        features.push(resolved[f]);
        f = f + 1;
        assert(features@ =~= resolved@.take(f as int));
    }
    let rec = Record { class, features };
    assert(valid_catalog(domains@)) by {
        assert(widened_one(start[n - 1], domains@[n - 1]));
    }
    assert(resolves(start[n - 1], domains@[n - 1], values@[n - 1]@, resolved@[n - 1] as nat));
    assert forall|q: int| 0 <= q < n implies resolved@[q] < domain_size(#[trigger] domains@[q]) by {
        assert(resolves(start[q], domains@[q], values@[q]@, resolved@[q] as nat));
    }
    assert forall|q: int| 0 <= q < rec.features@.len() implies resolves(start[q], domains@[q], values@[q]@, #[trigger] rec.features@[q] as nat) by {
        assert(rec.features@[q] == resolved@[q]);
    }
    assert forall|q: int| 0 <= q < rec.features@.len() implies rec.features@[q] < domain_size(#[trigger] domains@[q]) by {
        assert(rec.features@[q] == resolved@[q]);
    }
    Ok(rec)
}

/// What `String::from_utf8_lossy` makes of a byte sequence.
pub uninterp spec fn utf8_text(b: Seq<u8>) -> Seq<char>;

/// Relies on `String::from_utf8_lossy`: the text of `bytes[lo..hi]`, with any invalid
/// sequence replaced; the result depends on the bytes alone. Valid UTF-8 comes back
/// unchanged, so ASCII bytes give one character each.
#[verifier::external_body]
fn text_between(bytes: &[u8], lo: usize, hi: usize) -> (r: String)
    requires
        lo <= hi <= bytes@.len(),
    ensures
        r@ == utf8_text(bytes@.subrange(lo as int, hi as int)),
        (forall|i: int| lo <= i < hi ==> #[trigger] bytes@[i] < 128) ==> r@.len() == hi - lo && forall|i: int|
            0 <= i < hi - lo ==> r@[i] == (#[trigger] bytes@[lo + i]) as char,
{
    String::from_utf8_lossy(&bytes[lo..hi]).into_owned()
}

pub open spec fn is_space(c: u8) -> bool {
    c == 32 || c == 9 || c == 10 || c == 11 || c == 12 || c == 13
}

fn space(c: u8) -> (r: bool)
    ensures
        r == is_space(c),
{
    c == 32 || c == 9 || c == 10 || c == 11 || c == 12 || c == 13
}

pub open spec fn lower(c: u8) -> u8 {
    if 65 <= c <= 90 {
        (c + 32) as u8
    } else {
        c
    }
}

/// `b[lo..hi]` starts with `word`, ignoring ASCII case (`word` is lower case).
pub open spec fn starts_with_word(b: Seq<u8>, lo: int, hi: int, word: Seq<u8>) -> bool {
    &&& hi - lo >= word.len()
    &&& forall|i: int| 0 <= i < word.len() ==> lower(#[trigger] b[lo + i]) == word[i]
}

fn has_word(b: &[u8], lo: usize, hi: usize, word: &Vec<u8>) -> (r: bool)
    requires
        lo <= hi <= b@.len(),
    ensures
        r == starts_with_word(b@, lo as int, hi as int, word@),
{
    if hi - lo < word.len() {
        return false;
    }
    let mut i: usize = 0;
    while i < word.len()
        invariant
            lo <= hi <= b@.len(),
            hi - lo >= word@.len(),
            i <= word@.len(),
            forall|j: int| 0 <= j < i ==> lower(#[trigger] b@[lo + j]) == word@[j],
        decreases word@.len() - i,
    {
        let c = b[lo + i];
        let l = if 65 <= c && c <= 90 {
            c + 32
        } else {
            c
        };
        if l != word[i] {
            return false;
        }
        i = i + 1;
    }
    true
}

/// Index just past the run of bytes from `i` that are (or, with `want` false, are not)
/// whitespace, stopping at `hi`.
pub open spec fn run_end(b: Seq<u8>, i: int, hi: int, want: bool) -> int
    decreases hi - i,
{
    if i >= hi || is_space(b[i]) != want {
        i
    } else {
        run_end(b, i + 1, hi, want)
    }
}

/// Index just past the run of bytes from `i` that are (or, with `want` false, are not)
/// whitespace, stopping at `hi`.
fn skip_run(b: &[u8], i: usize, hi: usize, want: bool) -> (r: usize)
    requires
        i <= hi <= b@.len(),
    ensures
        i <= r <= hi,
        r == run_end(b@, i as int, hi as int, want),
        forall|j: int| i <= j < r ==> is_space(#[trigger] b@[j]) == want,
        r < hi ==> is_space(b@[r as int]) != want,
{
    let mut k = i;
    while k < hi && space(b[k]) == want
        invariant
            i <= k <= hi,
            hi <= b@.len(),
            run_end(b@, k as int, hi as int, want) == run_end(b@, i as int, hi as int, want),
            forall|j: int| i <= j < k ==> is_space(#[trigger] b@[j]) == want,
        decreases hi - k,
    {
        k = k + 1;
    }
    k
}

/// End of `b[lo..hi]` once trailing whitespace is dropped.
pub open spec fn trim_end(b: Seq<u8>, lo: int, hi: int) -> int
    decreases hi - lo,
{
    if hi <= lo || !is_space(b[hi - 1]) {
        hi
    } else {
        trim_end(b, lo, hi - 1)
    }
}

/// The text of `b[lo..hi]` without leading and trailing whitespace.
pub open spec fn trimmed(b: Seq<u8>, lo: int, hi: int) -> Seq<char> {
    let a = run_end(b, lo, hi, true);
    utf8_text(b.subrange(a, trim_end(b, a, hi)))
}

/// Position of the first comma in `b[i..hi]`, or `hi`.
pub open spec fn next_comma(b: Seq<u8>, i: int, hi: int) -> int
    decreases hi - i,
{
    if i >= hi || b[i] == 44 {
        i
    } else {
        next_comma(b, i + 1, hi)
    }
}

/// The comma-separated pieces of `b[lo..hi]`, each trimmed.
pub open spec fn fields(b: Seq<u8>, lo: int, hi: int) -> Seq<Seq<char>>
    decreases hi - lo + 1,
{
    let c = next_comma(b, lo, hi);
    if c >= hi || c < lo {
        seq![trimmed(b, lo, hi)]
    } else {
        seq![trimmed(b, lo, c)] + fields(b, c + 1, hi)
    }
}

/// The non-empty runs between commas in `b[lo..hi]`, each trimmed.
pub open spec fn items(b: Seq<u8>, lo: int, hi: int) -> Seq<Seq<char>>
    decreases hi - lo,
{
    if lo >= hi {
        seq![]
    } else if b[lo] == 44 {
        items(b, lo + 1, hi)
    } else {
        let e = next_comma(b, lo, hi);
        if e <= lo || e > hi {
            seq![]
        } else {
            seq![trimmed(b, lo, e)] + items(b, e, hi)
        }
    }
}

/// The texts of some strings.
pub open spec fn texts(v: Seq<String>) -> Seq<Seq<char>> {
    v.map_values(|t: String| t@)
}

proof fn lemma_next_comma_bounds(b: Seq<u8>, i: int, hi: int)
    ensures
        i <= hi ==> i <= next_comma(b, i, hi) <= hi,
        i <= hi && next_comma(b, i, hi) < hi ==> b[next_comma(b, i, hi)] == 44,
    decreases hi - i,
{
    if i < hi && b[i] != 44 {
        lemma_next_comma_bounds(b, i + 1, hi);
    }
}

/// The trimmed text of `b[lo..hi]`.
fn trimmed_text(b: &[u8], lo: usize, hi: usize) -> (r: String)
    requires
        lo <= hi <= b@.len(),
    ensures
        r@ == trimmed(b@, lo as int, hi as int),
{
    let a = skip_run(b, lo, hi, true);
    let mut e = hi;
    while e > a && space(b[e - 1])
        invariant
            a <= e <= hi,
            hi <= b@.len(),
            trim_end(b@, a as int, e as int) == trim_end(b@, a as int, hi as int),
        decreases e,
    {
        e = e - 1;
    }
    text_between(b, a, e)
}

/// Splits `b[lo..hi]` at commas and trims each piece of whitespace.
fn split_values(b: &[u8], lo: usize, hi: usize) -> (r: Vec<String>)
    requires
        lo <= hi <= b@.len(),
    ensures
        texts(r@) == fields(b@, lo as int, hi as int),
{
    let mut values: Vec<String> = Vec::new();
    let mut start = lo;
    let mut k = lo;
    while k < hi
        invariant
            lo <= start <= k,
            k <= hi,
            hi <= b@.len(),
            texts(values@) + fields(b@, start as int, hi as int) == fields(b@, lo as int, hi as int),
            next_comma(b@, start as int, hi as int) == next_comma(b@, k as int, hi as int),
        decreases hi - k,
    {
        if b[k] == 44 {
            let piece = trimmed_text(b, start, k);
            proof {
                assert(fields(b@, start as int, hi as int) == seq![piece@] + fields(b@, k + 1, hi as int));
                assert(texts(values@.push(piece)) =~= texts(values@).push(piece@));
                assert(texts(values@.push(piece)) + fields(b@, k + 1, hi as int) =~= texts(values@) + (seq![piece@]
                    + fields(b@, k + 1, hi as int)));
            }
            values.push(piece);
            start = k + 1;
        }
        k = k + 1;
    }
    let last = trimmed_text(b, start, hi);
    proof {
        assert(fields(b@, start as int, hi as int) == seq![last@]);
        assert(texts(values@.push(last)) =~= texts(values@) + seq![last@]);
    }
    values.push(last);
    values
}

/// The labels of a `{a, b, c}` list in `b[lo..hi]`: the non-empty runs between commas,
/// trimmed, followed by the reserved unknown label `?`.
fn split_labels(b: &[u8], lo: usize, hi: usize) -> (r: Vec<String>)
    requires
        lo <= hi <= b@.len(),
    ensures
        texts(r@) == items(b@, lo as int, hi as int).push(seq!['?']),
{
    let mut labels: Vec<String> = Vec::new();
    let mut k = lo;
    while k < hi
        invariant
            lo <= k <= hi,
            hi <= b@.len(),
            texts(labels@) + items(b@, k as int, hi as int) == items(b@, lo as int, hi as int),
        decreases hi - k,
    {
        if b[k] == 44 {
            k = k + 1;
        } else {
            let mut e = k;
            while e < hi && b[e] != 44
                invariant
                    k <= e <= hi,
                    hi <= b@.len(),
                    next_comma(b@, e as int, hi as int) == next_comma(b@, k as int, hi as int),
                decreases hi - e,
            {
                e = e + 1;
            }
            let piece = trimmed_text(b, k, e);
            proof {
                assert(items(b@, k as int, hi as int) == seq![piece@] + items(b@, e as int, hi as int));
                assert(texts(labels@.push(piece)) + items(b@, e as int, hi as int) =~= texts(labels@) + (seq![piece@]
                    + items(b@, e as int, hi as int)));
            }
            labels.push(piece);
            k = e;
        }
    }
    let unknown = String::from_str("?");
    proof {
        reveal_strlit("?");
    }
    assert(unknown@ == seq!['?']);
    proof {
        assert(items(b@, k as int, hi as int) == Seq::<Seq<char>>::empty());
        assert(texts(labels@.push(unknown)) =~= texts(labels@).push(seq!['?']));
        assert(texts(labels@) =~= texts(labels@) + items(b@, k as int, hi as int));
    }
    labels.push(unknown);
    labels
}

/// Position of the first byte `c` in `b[i..hi]`, or `hi`.
pub open spec fn first_byte(b: Seq<u8>, i: int, hi: int, c: u8) -> int
    decreases hi - i,
{
    if i >= hi || b[i] == c {
        i
    } else {
        first_byte(b, i + 1, hi, c)
    }
}

/// One past the position of the last byte `c` in `b[lo..hi]`, or `lo`.
pub open spec fn back_scan(b: Seq<u8>, lo: int, hi: int, c: u8) -> int
    decreases hi - lo,
{
    if hi <= lo || b[hi - 1] == c {
        hi
    } else {
        back_scan(b, lo, hi - 1, c)
    }
}

/// The labels listed between the first `{` of the line `b[lo..hi]` and the last `}`.
pub open spec fn brace_items(b: Seq<u8>, lo: int, hi: int) -> Seq<Seq<char>> {
    let open = first_byte(b, lo, hi, 123);
    items(b, open + 1, back_scan(b, open + 1, hi, 125) - 1)
}

/// `b[lo..hi]` holds a `{` with a `}` after it.
pub open spec fn has_braces(b: Seq<u8>, lo: int, hi: int) -> bool {
    exists|p: int, q: int| lo <= p < q < hi && b[p] == 123 && b[q] == 125
}

/// Position of the first `{` in `b[lo..hi]` and of the last `}` after it, if both exist.
fn brace_span(b: &[u8], lo: usize, hi: usize) -> (r: Option<(usize, usize)>)
    requires
        lo <= hi <= b@.len(),
    ensures
        match r {
            Some((open, close)) => lo <= open < close < hi,
            None => true,
        },
        r is Some <==> has_braces(b@, lo as int, hi as int),
        match r {
            Some((open, close)) => open == first_byte(b@, lo as int, hi as int, 123) && close + 1 == back_scan(
                b@,
                open + 1,
                hi as int,
                125,
            ),
            None => true,
        },
{
    let mut open = lo;
    while open < hi && b[open] != 123
        invariant
            lo <= open <= hi,
            hi <= b@.len(),
            first_byte(b@, open as int, hi as int, 123) == first_byte(b@, lo as int, hi as int, 123),
            forall|j: int| lo <= j < open ==> #[trigger] b@[j] != 123,
        decreases hi - open,
    {
        open = open + 1;
    }
    if open == hi {
        assert(!has_braces(b@, lo as int, hi as int));
        return None;
    }
    let mut close = hi;
    while close > open + 1 && b[close - 1] != 125
        invariant
            open + 1 <= close <= hi,
            hi <= b@.len(),
            back_scan(b@, open + 1, close as int, 125) == back_scan(b@, open + 1, hi as int, 125),
            forall|j: int| close <= j < hi ==> #[trigger] b@[j] != 125,
        decreases close,
    {
        close = close - 1;
    }
    if close == open + 1 {
        assert(!has_braces(b@, lo as int, hi as int)) by {
            if has_braces(b@, lo as int, hi as int) {
                let (p, q) = choose|p: int, q: int| lo <= p < q < hi && b@[p] == 123 && b@[q] == 125;
                assert(p >= open);
            }
        }
        None
    } else {
        assert(b@[open as int] == 123 && b@[close - 1] == 125);
        Some((open, close - 1))
    }
}


/// Index of the first newline at or after `i`, or the end of `b`.
pub open spec fn line_end(b: Seq<u8>, i: int) -> int
    decreases b.len() - i,
{
    if i < 0 || i >= b.len() || b[i] == 10 {
        i
    } else {
        line_end(b, i + 1)
    }
}

/// `@attribute`, in lower case.
pub open spec fn attribute_word() -> Seq<u8> {
    seq![64u8, 97, 116, 116, 114, 105, 98, 117, 116, 101]
}

/// `@data`, in lower case.
pub open spec fn data_word() -> Seq<u8> {
    seq![64u8, 100, 97, 116, 97]
}

/// The attribute declarations among the lines of `b` from `i` on, `data` telling whether
/// the rows have begun (lines split, and comments and rows told apart, as in `scan`): for
/// each, where its name lies (after `@attribute` and whitespace, up to the next whitespace)
/// whether the line holds a `{...}` list, and whether the line is well formed: whitespace
/// after `@attribute`, then a name.
pub open spec fn decls(b: Seq<u8>, i: int, data: bool) -> Seq<(int, int, bool, bool, Seq<Seq<char>>)>
    decreases b.len() - i,
{
    if i < 0 || i >= b.len() {
        seq![]
    } else {
        let end = line_end(b, i);
        let next = if i <= end < b.len() {
            end + 1
        } else {
            b.len() as int
        };
        let hi = if end > i && b[end - 1] == 13 {
            end - 1
        } else {
            end
        };
        if (hi > i && b[i] == 37) || data {
            decls(b, next, data)
        } else if starts_with_word(b, i, hi, attribute_word()) {
            let name_lo = run_end(b, i + 10, hi, true);
            let name_hi = run_end(b, name_lo, hi, false);
            seq![
                (
                    name_lo,
                    name_hi,
                    has_braces(b, i, hi),
                    name_lo > i + 10 && name_hi > name_lo,
                    brace_items(b, i, hi),
                ),
            ] + decls(b, next, false)
        } else if starts_with_word(b, i, hi, data_word()) {
            decls(b, next, true)
        } else {
            decls(b, next, false)
        }
    }
}

/// The data rows among the lines of `b` from `i` on (lines told apart as in `scan`): for
/// each, whether it is blank and its comma-separated values, trimmed.
pub open spec fn rows(b: Seq<u8>, i: int, data: bool) -> Seq<(bool, Seq<Seq<char>>)>
    decreases b.len() - i,
{
    if i < 0 || i >= b.len() {
        seq![]
    } else {
        let end = line_end(b, i);
        let next = if i <= end < b.len() {
            end + 1
        } else {
            b.len() as int
        };
        let hi = if end > i && b[end - 1] == 13 {
            end - 1
        } else {
            end
        };
        if hi > i && b[i] == 37 {
            rows(b, next, data)
        } else if data {
            seq![(run_end(b, i, hi, true) == hi, fields(b, i, hi))] + rows(b, next, true)
        } else if !starts_with_word(b, i, hi, attribute_word()) && starts_with_word(b, i, hi, data_word()) {
            rows(b, next, true)
        } else {
            rows(b, next, false)
        }
    }
}

/// The labels of a declared categorical attribute: those listed, then the reserved `?`,
/// except for the class.
pub open spec fn decl_labels(d: (int, int, bool, bool, Seq<Seq<char>>), is_class: bool) -> Seq<Seq<char>> {
    if is_class {
        d.4
    } else {
        d.4.push(seq!['?'])
    }
}

/// `idx` is what `text` reads as under the declaration `d`: the position of the first equal
/// label, or the bucket of a numeral.
pub open spec fn value_index(d: (int, int, bool, bool, Seq<Seq<char>>), is_class: bool, text: Seq<char>, idx: nat) -> bool {
    if d.2 {
        let l = decl_labels(d, is_class);
        &&& idx < l.len()
        &&& l[idx as int] == text
        &&& forall|j: int| 0 <= j < idx ==> l[j] != text
    } else {
        bucket_spec(text) == Some(idx)
    }
}

pub open spec fn resolvable(d: (int, int, bool, bool, Seq<Seq<char>>), is_class: bool, text: Seq<char>) -> bool {
    exists|idx: nat| value_index(d, is_class, text, idx)
}

/// A data row reads under the declarations: not blank, one value per attribute, each one
/// readable.
pub open spec fn row_ok(ds: Seq<(int, int, bool, bool, Seq<Seq<char>>)>, row: (bool, Seq<Seq<char>>)) -> bool {
    &&& !row.0
    &&& row.1.len() == ds.len()
    &&& forall|f: int| 0 <= f < ds.len() ==> resolvable(ds[f], f == ds.len() - 1, #[trigger] row.1[f])
}

/// `rec` is what the row reads as: its features from the leading values, its class from
/// the last.
pub open spec fn record_of_row(ds: Seq<(int, int, bool, bool, Seq<Seq<char>>)>, row: (bool, Seq<Seq<char>>), rec: Record) -> bool {
    &&& rec.features@.len() + 1 == ds.len()
    &&& value_index(ds[ds.len() - 1], true, row.1[ds.len() - 1], rec.class as nat)
    &&& forall|f: int| 0 <= f < rec.features@.len() ==> value_index(ds[f], false, row.1[f], #[trigger] rec.features@[f] as nat)
}

/// The row reads, and reads as `rec`.
#[verifier::opaque]
pub open spec fn row_read(ds: Seq<(int, int, bool, bool, Seq<Seq<char>>)>, row: (bool, Seq<Seq<char>>), rec: Record) -> bool {
    row_ok(ds, row) && record_of_row(ds, row, rec)
}

/// The file loads: every declaration names its attribute, and if there are rows, the class
/// is categorical and every row reads.
pub open spec fn loads(b: Seq<u8>) -> bool {
    let ds = decls(b, 0, false);
    let rs = rows(b, 0, false);
    &&& forall|k: int| 0 <= k < ds.len() ==> (#[trigger] ds[k]).3
    &&& rs.len() > 0 ==> ds.len() > 0 && ds[ds.len() - 1].2 && forall|r: int| 0 <= r < rs.len() ==> #[trigger] row_ok(ds, rs[r])
}

/// Each categorical domain holds the declared labels (with the reserved one, except on the
/// class once the rows have begun).
pub open spec fn catalog_matches(classes: Seq<Class>, ds: Seq<(int, int, bool, bool, Seq<Seq<char>>)>, data: bool) -> bool {
    forall|k: int|
        0 <= k < classes.len() ==> match #[trigger] classes[k] {
            Class::Nominal(l) => texts(l@) == decl_labels(ds[k], data && k == classes.len() - 1),
            Class::Continuous(_) => true,
        }
}

proof fn lemma_no_decls_after_data(b: Seq<u8>, i: int)
    ensures
        decls(b, i, true) == Seq::<(int, int, bool, bool, Seq<Seq<char>>)>::empty(),
    decreases b.len() - i,
{
    if 0 <= i < b.len() {
        let end = line_end(b, i);
        let next = if i <= end < b.len() {
            end + 1
        } else {
            b.len() as int
        };
        lemma_no_decls_after_data(b, next);
    }
}

/// The domain `dom` agrees with the declaration `d`.
pub open spec fn domain_agrees(dom: Class, d: (int, int, bool, bool, Seq<Seq<char>>), is_class: bool) -> bool {
    &&& (dom is Nominal <==> d.2)
    &&& match dom {
        Class::Nominal(l) => texts(l@) == decl_labels(d, is_class),
        Class::Continuous(_) => true,
    }
}

proof fn lemma_value_read(
    before: Class,
    after: Class,
    d: (int, int, bool, bool, Seq<Seq<char>>),
    is_class: bool,
    text: Seq<char>,
    idx: nat,
)
    requires
        domain_agrees(before, d, is_class),
        resolves(before, after, text, idx),
    ensures
        value_index(d, is_class, text, idx),
        domain_agrees(after, d, is_class),
{
    match before {
        Class::Nominal(l) => {
            assert(texts(l@)[idx as int] == l@[idx as int]@);
            assert forall|j: int| 0 <= j < idx implies decl_labels(d, is_class)[j] != text by {
                assert(texts(l@)[j] == l@[j]@);
            }
        },
        Class::Continuous(_) => {},
    }
}

proof fn lemma_value_unread(
    before: Class,
    after: Class,
    d: (int, int, bool, bool, Seq<Seq<char>>),
    is_class: bool,
    text: Seq<char>,
)
    requires
        domain_agrees(before, d, is_class),
        widened_one(before, after),
        unresolvable(after, text),
    ensures
        !resolvable(d, is_class, text),
{
    if resolvable(d, is_class, text) {
        let idx = choose|idx: nat| value_index(d, is_class, text, idx);
        match before {
            Class::Nominal(l) => {
                assert(after == before);
                assert(texts(l@)[idx as int] == l@[idx as int]@);
            },
            Class::Continuous(_) => {},
        }
    }
}

/// Every domain agrees with its declaration, the last being the class.
pub open spec fn catalog_agrees(classes: Seq<Class>, ds: Seq<(int, int, bool, bool, Seq<Seq<char>>)>) -> bool {
    &&& classes.len() == ds.len()
    &&& forall|k: int| 0 <= k < ds.len() ==> domain_agrees(#[trigger] classes[k], ds[k], k == ds.len() - 1)
}

proof fn lemma_row_read(
    ds: Seq<(int, int, bool, bool, Seq<Seq<char>>)>,
    before: Seq<Class>,
    after: Seq<Class>,
    values: Seq<String>,
    rec: Record,
    row: (bool, Seq<Seq<char>>),
)
    requires
        catalog_agrees(before, ds),
        ds.len() >= 1,
        !row.0,
        texts(values) == row.1,
        values.len() == before.len(),
        widened(before, after),
        rec.features@.len() + 1 == values.len(),
        resolves(before.last(), after.last(), values.last()@, rec.class as nat),
        forall|f: int|
            0 <= f < rec.features@.len() ==> resolves(before[f], after[f], values[f]@, #[trigger] rec.features@[f] as nat),
    ensures
        row_ok(ds, row),
        record_of_row(ds, row, rec),
        catalog_agrees(after, ds),
{
    let last = ds.len() - 1;
    assert(row.1[last] == values[last]@);
    assert(domain_agrees(before[last], ds[last], true));
    lemma_value_read(before[last], after[last], ds[last], true, values[last]@, rec.class as nat);
    assert forall|f: int| 0 <= f < rec.features@.len() implies (value_index(ds[f], false, row.1[f], #[trigger] rec.features@[f] as nat)
        && domain_agrees(after[f], ds[f], false)) by {
        assert(row.1[f] == values[f]@);
        assert(domain_agrees(before[f], ds[f], f == ds.len() - 1));
        lemma_value_read(before[f], after[f], ds[f], false, values[f]@, rec.features@[f] as nat);
    }
    assert forall|f: int| 0 <= f < ds.len() implies resolvable(ds[f], f == ds.len() - 1, #[trigger] row.1[f]) by {
        if f < last {
            assert(value_index(ds[f], false, row.1[f], rec.features@[f] as nat));
        } else {
            assert(value_index(ds[f], true, row.1[f], rec.class as nat));
        }
    }
    assert forall|k: int| 0 <= k < ds.len() implies domain_agrees(#[trigger] after[k], ds[k], k == ds.len() - 1) by {
        if k < last {
            assert(value_index(ds[k], false, row.1[k], rec.features@[k] as nat));
            assert(domain_agrees(after[k], ds[k], false));
        } else {
            assert(k == last);
            assert(domain_agrees(after[last], ds[last], true));
        }
    }
}

proof fn lemma_row_unread(
    ds: Seq<(int, int, bool, bool, Seq<Seq<char>>)>,
    before: Seq<Class>,
    after: Seq<Class>,
    values: Seq<String>,
    row: (bool, Seq<Seq<char>>),
)
    requires
        catalog_agrees(before, ds),
        ds.len() >= 1,
        texts(values) == row.1,
        widened(before, after),
        values.len() == 0 || values.len() != before.len() || exists|f: int|
            0 <= f < values.len() && #[trigger] unresolvable(after[f], values[f]@),
    ensures
        !row_ok(ds, row),
{
    if values.len() == before.len() && values.len() > 0 {
        let f = choose|f: int| 0 <= f < values.len() && #[trigger] unresolvable(after[f], values[f]@);
        assert(domain_agrees(before[f], ds[f], f == ds.len() - 1));
        assert(widened_one(before[f], after[f]));
        lemma_value_unread(before[f], after[f], ds[f], f == ds.len() - 1, values[f]@);
        assert(row.1[f] == values[f]@);
    } else {
        assert(texts(values).len() == values.len());
    }
}

proof fn lemma_class_label_dropped(
    before: Seq<Class>,
    after: Seq<Class>,
    ds: Seq<(int, int, bool, bool, Seq<Seq<char>>)>,
)
    requires
        before.len() == ds.len(),
        forall|k: int| 0 <= k < ds.len() ==> #[trigger] domain_agrees(before[k], ds[k], false),
        after.len() == before.len(),
        forall|i: int| 0 <= i < before.len() - 1 ==> after[i] == before[i],
        before.len() > 0 ==> (before.last() is Nominal <==> after.last() is Nominal),
        before.len() > 0 && before.last() is Nominal && before.last()->Nominal_0@.len() > 0
            ==> after.last()->Nominal_0@ == before.last()->Nominal_0@.drop_last(),
    ensures
        catalog_agrees(after, ds),
{
    assert forall|k: int| 0 <= k < ds.len() implies domain_agrees(#[trigger] after[k], ds[k], k == ds.len() - 1) by {
        assert(domain_agrees(before[k], ds[k], false));
        if k == ds.len() - 1 {
            match before[k] {
                Class::Nominal(l) => {
                    assert(texts(l@).len() == l@.len());
                    let l2 = after[k]->Nominal_0;
                    assert(texts(l2@) =~= texts(l@).drop_last());
                    assert(decl_labels(ds[k], false).drop_last() =~= decl_labels(ds[k], true));
                },
                Class::Continuous(_) => {},
            }
        }
    }
}

/// The error `e` describes what is wrong with the data row `row` under the declarations
/// `ds`.
pub open spec fn row_error(ds: Seq<(int, int, bool, bool, Seq<Seq<char>>)>, row: (bool, Seq<Seq<char>>), e: ArffError) -> bool {
    match e {
        ArffError::EmptyDataRow => row.0 || row.1.len() != ds.len(),
        ArffError::UnmatchedCategoricalValue => exists|f: int|
            0 <= f < ds.len() && f < row.1.len() && ds[f].2 && !resolvable(ds[f], f == ds.len() - 1, #[trigger] row.1[f]),
        ArffError::InvalidNumericValue => exists|f: int|
            0 <= f < ds.len() && f < row.1.len() && !ds[f].2 && !resolvable(ds[f], f == ds.len() - 1, #[trigger] row.1[f]),
        ArffError::MalformedAttributeLine => ds.len() == 0 || !ds[ds.len() - 1].2,
        ArffError::EmptyTrainingSet => false,
    }
}

proof fn lemma_row_error(
    ds: Seq<(int, int, bool, bool, Seq<Seq<char>>)>,
    before: Seq<Class>,
    after: Seq<Class>,
    values: Seq<String>,
    row: (bool, Seq<Seq<char>>),
    e: ArffError,
)
    requires
        catalog_agrees(before, ds),
        ds.len() >= 1,
        texts(values) == row.1,
        widened(before, after),
        !(e is EmptyTrainingSet),
        !(e is MalformedAttributeLine),
        e is EmptyDataRow ==> values.len() == 0 || values.len() != before.len(),
        !(e is EmptyDataRow) ==> values.len() == before.len(),
        e is UnmatchedCategoricalValue ==> exists|f: int|
            0 <= f < values.len() && after[f] is Nominal && #[trigger] unresolvable(after[f], values[f]@),
        e is InvalidNumericValue ==> exists|f: int|
            0 <= f < values.len() && after[f] is Continuous && #[trigger] unresolvable(after[f], values[f]@),
    ensures
        row_error(ds, row, e),
{
    assert(texts(values).len() == values.len());
    match e {
        ArffError::UnmatchedCategoricalValue => {
            let f = choose|f: int| 0 <= f < values.len() && after[f] is Nominal && #[trigger] unresolvable(after[f], values[f]@);
            assert(domain_agrees(before[f], ds[f], f == ds.len() - 1));
            assert(widened_one(before[f], after[f]));
            lemma_value_unread(before[f], after[f], ds[f], f == ds.len() - 1, values[f]@);
            assert(row.1[f] == values[f]@);
        },
        ArffError::InvalidNumericValue => {
            let f = choose|f: int| 0 <= f < values.len() && after[f] is Continuous && #[trigger] unresolvable(after[f], values[f]@);
            assert(domain_agrees(before[f], ds[f], f == ds.len() - 1));
            assert(widened_one(before[f], after[f]));
            lemma_value_unread(before[f], after[f], ds[f], f == ds.len() - 1, values[f]@);
            assert(row.1[f] == values[f]@);
        },
        _ => {},
    }
}

/// One more than the largest value of feature `k` among the records, or 0 for none.
pub open spec fn feature_span(recs: Seq<Record>, k: int) -> nat
    decreases recs.len(),
{
    if recs.len() == 0 {
        0
    } else {
        let rest = feature_span(recs.drop_last(), k);
        let here = (recs.last().features@[k] + 1) as nat;
        if here > rest {
            here
        } else {
            rest
        }
    }
}

/// Every bucketed domain is exactly wide enough for the records' values.
pub open spec fn spans_fit(classes: Seq<Class>, recs: Seq<Record>) -> bool {
    forall|k: int|
        0 <= k < classes.len() && (#[trigger] classes[k]) is Continuous ==> classes[k]->Continuous_0 == feature_span(recs, k)
}

proof fn lemma_span_row(before: Seq<Class>, after: Seq<Class>, recs: Seq<Record>, rec: Record, values: Seq<String>)
    requires
        spans_fit(before, recs),
        widened(before, after),
        after.len() > 0,
        after[after.len() - 1] is Nominal,
        rec.features@.len() + 1 == after.len(),
        forall|f: int|
            0 <= f < rec.features@.len() ==> resolves(before[f], after[f], values[f]@, #[trigger] rec.features@[f] as nat),
    ensures
        spans_fit(after, recs.push(rec)),
{
    let all = recs.push(rec);
    assert(all.drop_last() =~= recs);
    assert forall|k: int| 0 <= k < after.len() && (#[trigger] after[k]) is Continuous implies after[k]->Continuous_0
        == feature_span(all, k) by {
        assert(widened_one(before[k], after[k]));
        assert(k < rec.features@.len());
        assert(resolves(before[k], after[k], values[k]@, rec.features@[k] as nat));
    }
}

proof fn lemma_span_change(before: Seq<Class>, after: Seq<Class>, recs: Seq<Record>)
    requires
        spans_fit(before, recs),
        after.len() >= before.len(),
        forall|k: int| 0 <= k < before.len() && (#[trigger] after[k]) is Continuous ==> after[k] == before[k],
        forall|k: int| before.len() <= k < after.len() && (#[trigger] after[k]) is Continuous ==> after[k]->Continuous_0 == 0,
        after.len() > before.len() ==> recs.len() == 0,
    ensures
        spans_fit(after, recs),
{
}

/// Numbers of attribute declarations and of data rows in the lines of `b` from `i` on,
/// `data` telling whether the rows have begun. A line ends at a newline (a carriage return
/// before it is dropped); a line starting with `%` is a comment; before the rows, a line
/// starting with `@attribute` declares an attribute and one starting with `@data` (any
/// case) begins the rows; every other line after that is a row.
pub open spec fn scan(b: Seq<u8>, i: int, data: bool) -> (nat, nat)
    decreases b.len() - i,
{
    if i < 0 || i >= b.len() {
        (0, 0)
    } else {
        let end = line_end(b, i);
        let next = if i <= end < b.len() {
            end + 1
        } else {
            b.len() as int
        };
        let hi = if end > i && b[end - 1] == 13 {
            end - 1
        } else {
            end
        };
        if hi > i && b[i] == 37 {
            scan(b, next, data)
        } else if data {
            let r = scan(b, next, true);
            (r.0, r.1 + 1)
        } else if starts_with_word(b, i, hi, attribute_word()) {
            let r = scan(b, next, false);
            (r.0 + 1, r.1)
        } else if starts_with_word(b, i, hi, data_word()) {
            scan(b, next, true)
        } else {
            scan(b, next, false)
        }
    }
}

/// The attributes read so far match the declarations `seen`: names and kinds.
pub open spec fn decls_match(b: Seq<u8>, labels: Seq<String>, classes: Seq<Class>, seen: Seq<(int, int, bool, bool, Seq<Seq<char>>)>) -> bool {
    &&& labels.len() == seen.len()
    &&& classes.len() == labels.len()
    &&& forall|k: int|
        0 <= k < labels.len() ==> (#[trigger] labels[k])@ == utf8_text(b.subrange(seen[k].0, seen[k].1))
            && (classes[k] is Nominal <==> seen[k].2)
}

proof fn lemma_decls_push(
    b: Seq<u8>,
    labels: Seq<String>,
    classes: Seq<Class>,
    seen: Seq<(int, int, bool, bool, Seq<Seq<char>>)>,
    labels2: Seq<String>,
    classes2: Seq<Class>,
    d: (int, int, bool, bool, Seq<Seq<char>>),
)
    requires
        decls_match(b, labels, classes, seen),
        labels2 == labels.push(labels2.last()),
        classes2 == classes.push(classes2.last()),
        labels2.last()@ == utf8_text(b.subrange(d.0, d.1)),
        classes2.last() is Nominal <==> d.2,
    ensures
        decls_match(b, labels2, classes2, seen.push(d)),
{
    let s2 = seen.push(d);
    assert forall|k: int| 0 <= k < labels2.len() implies (#[trigger] labels2[k])@ == utf8_text(b.subrange(s2[k].0, s2[k].1))
        && (classes2[k] is Nominal <==> s2[k].2) by {
        if k < labels.len() {
            assert(labels2[k] == labels[k]);
            assert(classes2[k] == classes[k]);
            assert(s2[k] == seen[k]);
        }
    }
}

proof fn lemma_decls_kinds(
    b: Seq<u8>,
    labels: Seq<String>,
    classes: Seq<Class>,
    classes2: Seq<Class>,
    seen: Seq<(int, int, bool, bool, Seq<Seq<char>>)>,
)
    requires
        decls_match(b, labels, classes, seen),
        classes2.len() == classes.len(),
        forall|k: int| 0 <= k < classes.len() ==> (#[trigger] classes2[k] is Nominal <==> classes[k] is Nominal),
    ensures
        decls_match(b, labels, classes2, seen),
{
    assert forall|k: int| 0 <= k < labels.len() implies ((#[trigger] labels[k])@ == utf8_text(b.subrange(seen[k].0, seen[k].1))
        && (classes2[k] is Nominal <==> seen[k].2)) by {
        assert(labels[k]@ == utf8_text(b.subrange(seen[k].0, seen[k].1)));
        assert(classes[k] is Nominal <==> seen[k].2);
        assert(classes2[k] is Nominal <==> classes[k] is Nominal);
    }
}

/// Removes the reserved unknown label from the last attribute, the class, if it is
/// categorical: the class domain holds only the declared labels.
fn drop_unknown_class_label(classes: &mut Vec<Class>)
    ensures
        final(classes)@.len() == old(classes)@.len(),
        forall|i: int| 0 <= i < old(classes)@.len() - 1 ==> final(classes)@[i] == old(classes)@[i],
        old(classes)@.len() > 0 ==> (old(classes)@.last() is Nominal <==> final(classes)@.last() is Nominal),
        old(classes)@.len() > 0 && old(classes)@.last() is Continuous ==> final(classes)@.last() == old(classes)@.last(),
        old(classes)@.len() > 0 && old(classes)@.last() is Nominal && old(classes)@.last()->Nominal_0@.len() > 0
            ==> final(classes)@.last()->Nominal_0@ == old(classes)@.last()->Nominal_0@.drop_last(),
{
    let n = classes.len();
    if n == 0 {
        return;
    }
    let mut taken = Class::Continuous(0);
    std::mem::swap(&mut classes[n - 1], &mut taken);
    let trimmed = match taken {
        Class::Nominal(mut labels) => {
            let ghost full = labels@;
            if labels.len() > 0 {
                labels.pop();
                assert(labels@ =~= full.drop_last());
            }
            Class::Nominal(labels)
        },
        Class::Continuous(size) => Class::Continuous(size),
    };
    classes.set(n - 1, trimmed);
}

impl Arff {
    /// Reads a data set. Lines starting with `%` are comments. Before `@data`, a line
    /// `@attribute <name> ...` declares an attribute: categorical when the line holds a
    /// `{...}` list (its labels, then `?`, except for the class, which is the last
    /// attribute), bucketed otherwise. `@data` (any case) starts the
    /// rows: one comma-separated value per attribute, the class last, each resolved with
    /// `parse_record`.
    #[verifier::rlimit(80)]
    pub fn parse(contents: &str) -> (r: Result<Arff, ArffError>)
        ensures
            match r {
                Ok(a) => {
                    &&& a.labels@.len() == a.classes@.len()
                    &&& (a.labels@.len(), a.records@.len()) == scan(contents.spec_bytes(), 0, false)
                    &&& decls_match(contents.spec_bytes(), a.labels@, a.classes@, decls(contents.spec_bytes(), 0, false))
                    &&& catalog_agrees(a.classes@, decls(contents.spec_bytes(), 0, false))
                    &&& spans_fit(a.classes@, a.records@)
                    &&& a.records@.len() == rows(contents.spec_bytes(), 0, false).len()
                    &&& forall|i: int|
                        0 <= i < a.records@.len() ==> record_of_row(
                            decls(contents.spec_bytes(), 0, false),
                            rows(contents.spec_bytes(), 0, false)[i],
                            #[trigger] a.records@[i],
                        )
                    &&& a.records@.len() > 0 ==> valid_catalog(a.classes@)
                    &&& valid_records(a.classes@, a.records@)
                },
                Err(e) => {
                    &&& !(e is EmptyTrainingSet)
                    &&& (e is MalformedAttributeLine && exists|k: int|
                        0 <= k < decls(contents.spec_bytes(), 0, false).len() && !(#[trigger] decls(
                            contents.spec_bytes(),
                            0,
                            false,
                        )[k]).3) || exists|i: int|
                        0 <= i < rows(contents.spec_bytes(), 0, false).len() && row_error(
                            decls(contents.spec_bytes(), 0, false),
                            #[trigger] rows(contents.spec_bytes(), 0, false)[i],
                            e,
                        )
                },
            },
            r is Ok <==> loads(contents.spec_bytes()),
    {
        let b = contents.as_bytes();
        let n = b.len();
        let attribute: Vec<u8> = vec![64u8, 97, 116, 116, 114, 105, 98, 117, 116, 101];
        let data_start: Vec<u8> = vec![64u8, 100, 97, 116, 97];
        assert(attribute@ =~= attribute_word());
        assert(data_start@ =~= data_word());
        let ghost total = scan(b@, 0, false);
        let ghost all_decls = decls(b@, 0, false);
        let ghost mut seen: Seq<(int, int, bool, bool, Seq<Seq<char>>)> = seq![];
        let ghost all_rows = rows(b@, 0, false);
        let ghost mut seen_rows: Seq<(bool, Seq<Seq<char>>)> = seq![];
        let mut records: Vec<Record> = Vec::new();
        let mut labels: Vec<String> = Vec::new();
        let mut classes: Vec<Class> = Vec::new();
        let mut data_section = false;
        let mut start: usize = 0;
        while start < n
            invariant
                n == b@.len(),
                attribute@ == attribute_word(),
                data_start@ == data_word(),
                b@ == contents.spec_bytes(),
                total == scan(b@, 0, false),
                all_decls == decls(b@, 0, false),
                seen + decls(b@, start as int, data_section) == all_decls,
                decls_match(b@, labels@, classes@, seen),
                spans_fit(classes@, records@),
                all_rows == rows(b@, 0, false),
                seen_rows + rows(b@, start as int, data_section) == all_rows,
                records@.len() == seen_rows.len(),
                forall|i: int| 0 <= i < seen_rows.len() ==> row_read(all_decls, seen_rows[i], #[trigger] records@[i]),
                forall|k: int| 0 <= k < seen.len() ==> (#[trigger] seen[k]).3,
                !data_section ==> forall|k: int| 0 <= k < classes@.len() ==> domain_agrees(#[trigger] classes@[k], seen[k], false),
                data_section ==> seen == all_decls && catalog_agrees(classes@, seen),
                !data_section ==> seen_rows.len() == 0,
                seen_rows.len() > 0 ==> seen.len() > 0 && seen[seen.len() - 1].2,
                labels@.len() + scan(b@, start as int, data_section).0 == total.0,
                records@.len() + scan(b@, start as int, data_section).1 == total.1,
                start <= n,
                labels@.len() == classes@.len(),
                !data_section ==> records@.len() == 0,
                records@.len() > 0 ==> valid_catalog(classes@),
                valid_records(classes@, records@),
            decreases n - start,
        {
            assert(labels@.len() == seen.len());
            let mut end = start;
            while end < n && b[end] != 10
                invariant
                    start <= end <= n,
                    n == b@.len(),
                    line_end(b@, end as int) == line_end(b@, start as int),
                decreases n - end,
            {
                end = end + 1;
            }
            assert(end == line_end(b@, start as int));
            let next = if end < n {
                end + 1
            } else {
                end
            };
            let hi = if end > start && b[end - 1] == 13 {
                end - 1
            } else {
                end
            };
            if hi > start && b[start] == 37 {
                // a comment line: nothing to read
            } else if data_section {
                assert(scan(b@, start as int, true).1 >= 1);
                let ghost row = (run_end(b@, start as int, hi as int, true) == hi, fields(b@, start as int, hi as int));
                assert(rows(b@, start as int, true) == seq![row] + rows(b@, next as int, true));
                assert(all_rows[seen_rows.len() as int] == row) by {
                    assert((seen_rows + rows(b@, start as int, true))[seen_rows.len() as int] == row);
                }
                let first = skip_run(b, start, hi, true);
                if first == hi {
                    assert(!row_ok(all_decls, all_rows[seen_rows.len() as int]));
                    assert(row_error(all_decls, all_rows[seen_rows.len() as int], ArffError::EmptyDataRow));
                    return Err(ArffError::EmptyDataRow);
                }
                let well_formed = classes.len() > 0 && match &classes[classes.len() - 1] {
                    Class::Nominal(_) => true,
                    Class::Continuous(_) => false,
                };
                if !well_formed {
                    proof {
                        if classes@.len() > 0 {
                            assert(domain_agrees(classes@[classes@.len() - 1], seen[seen.len() - 1], true));
                        }
                        assert(row_error(all_decls, all_rows[seen_rows.len() as int], ArffError::MalformedAttributeLine));
                    }
                    return Err(ArffError::MalformedAttributeLine);
                }
                assert(domain_agrees(classes@[classes@.len() - 1], seen[seen.len() - 1], true));
                let values = split_values(b, start, hi);
                let ghost before = classes@;
                let rec = match parse_record(&mut classes, &values) {
                    Ok(rec) => rec,
                    Err(e) => {
                        proof {
                            lemma_row_unread(all_decls, before, classes@, values@, row);
                            lemma_row_error(all_decls, before, classes@, values@, row, e);
                        }
                        return Err(e);
                    },
                };
                let ghost old_rows = seen_rows;
                let ghost old_records = records@;
                proof {
                    assert(valid_record(classes@, rec));
                    assert(rec.features@.len() + 1 == values@.len());
                    lemma_row_read(all_decls, before, classes@, values@, rec, row);
                    assert(domain_agrees(classes@[classes@.len() - 1], seen[seen.len() - 1], true));
                    lemma_span_row(before, classes@, records@, rec, values@);
                    seen_rows = seen_rows.push(row);
                    assert(seen_rows + rows(b@, next as int, true) =~= old_rows + rows(b@, start as int, true));
                    assert(before.len() == labels@.len());
                    assert(classes@.len() == before.len());
                    assert forall|i: int| 0 <= i < records@.len() implies valid_record(classes@, #[trigger] records@[i]) by {
                        lemma_widening_keeps_records(before, classes@, records@[i]);
                    }
                    assert forall|k: int| 0 <= k < before.len() implies (#[trigger] classes@[k] is Nominal <==> before[k] is Nominal) by {
                        assert(widened_one(before[k], classes@[k]));
                    }
                    lemma_decls_kinds(b@, labels@, before, classes@, seen);
                }
                records.push(rec);
                assert forall|i: int| 0 <= i < seen_rows.len() implies row_read(all_decls, seen_rows[i], #[trigger] records@[i]) by {
                    if i == old_rows.len() {
                        reveal(row_read);
                    } else {
                        assert(records@[i] == old_records[i]);
                        assert(seen_rows[i] == old_rows[i]);
                    }
                }
            } else if has_word(b, start, hi, &attribute) {
                let after = start + 10;
                let name_start = skip_run(b, after, hi, true);
                let name_end = skip_run(b, name_start, hi, false);
                if name_start == after || name_start == name_end {
                    proof {
                        let d = (
                            name_start as int,
                            name_end as int,
                            has_braces(b@, start as int, hi as int),
                            false,
                            brace_items(b@, start as int, hi as int),
                        );
                        assert(decls(b@, start as int, false) == seq![d] + decls(b@, next as int, false));
                        assert(all_decls[seen.len() as int] == (seen + decls(b@, start as int, false))[seen.len() as int]);
                        assert(!all_decls[seen.len() as int].3);
                    }
                    return Err(ArffError::MalformedAttributeLine);
                }
                let ghost old_labels = labels@;
                let ghost old_classes = classes@;
                labels.push(text_between(b, name_start, name_end));
                let ghost d = (
                    name_start as int,
                    name_end as int,
                    has_braces(b@, start as int, hi as int),
                    name_start > after && name_end > name_start,
                    brace_items(b@, start as int, hi as int),
                );
                match brace_span(b, start, hi) {
                    Some((open, close)) => {
                        let list = split_labels(b, open + 1, close);
                        classes.push(Class::Nominal(list));
                    },
                    None => {
                        classes.push(Class::Continuous(0));
                    },
                }
                assert(domain_agrees(classes@[classes@.len() - 1], d, false));
                proof {
                    lemma_span_change(old_classes, classes@, records@);
                }
                assert forall|k: int| 0 <= k < classes@.len() implies domain_agrees(#[trigger] classes@[k], seen.push(d)[k], false) by {
                    if k < classes@.len() - 1 {
                        assert(classes@[k] == old_classes[k]);
                        assert(seen.push(d)[k] == seen[k]);
                    }
                }
                proof {
                    assert(decls(b@, start as int, false) == seq![d] + decls(b@, next as int, false));
                    assert(seen.push(d) + decls(b@, next as int, false) =~= seen + (seq![d] + decls(b@, next as int, false)));
                    lemma_decls_push(b@, old_labels, old_classes, seen, labels@, classes@, d);
                    let old_seen = seen;
                    seen = seen.push(d);
                    assert forall|k: int| 0 <= k < seen.len() implies (#[trigger] seen[k]).3 by {
                        if k < old_seen.len() {
                            assert(seen[k] == old_seen[k]);
                        }
                    }
                }
            } else if has_word(b, start, hi, &data_start) {
                let ghost before = classes@;
                drop_unknown_class_label(&mut classes);
                data_section = true;
                proof {
                    assert forall|k: int| 0 <= k < before.len() implies (#[trigger] classes@[k] is Nominal <==> before[k] is Nominal) by {
                        if k == before.len() - 1 {
                            assert(classes@.last() is Nominal <==> before.last() is Nominal);
                        }
                    }
                    lemma_decls_kinds(b@, labels@, before, classes@, seen);
                    lemma_no_decls_after_data(b@, next as int);
                    assert(seen + decls(b@, next as int, true) =~= seen);
                    lemma_class_label_dropped(before, classes@, seen);
                    lemma_span_change(before, classes@, records@);
                }
            }
            start = next;
        }
        let ghost before_end = classes@;
        if !data_section {
            let ghost before = classes@;
            drop_unknown_class_label(&mut classes);
            proof {
                assert forall|k: int| 0 <= k < before.len() implies (#[trigger] classes@[k] is Nominal <==> before[k] is Nominal) by {
                    if k == before.len() - 1 {
                        assert(classes@.last() is Nominal <==> before.last() is Nominal);
                    }
                }
                lemma_decls_kinds(b@, labels@, before, classes@, seen);
                lemma_span_change(before, classes@, records@);
            }
        }
        assert(decls(b@, start as int, data_section) =~= seq![]);
        assert(seen =~= all_decls);
        assert(rows(b@, start as int, data_section) =~= seq![]);
        assert(seen_rows =~= all_rows);
        assert(loads(b@)) by {
            assert forall|r: int| 0 <= r < all_rows.len() implies #[trigger] row_ok(all_decls, all_rows[r]) by {
                assert(row_read(all_decls, seen_rows[r], records@[r]));
                reveal(row_read);
            }
        }
        assert forall|i: int| 0 <= i < records@.len() implies record_of_row(all_decls, all_rows[i], #[trigger] records@[i]) by {
            assert(row_read(all_decls, seen_rows[i], records@[i]));
            reveal(row_read);
        }
        proof {
            if !data_section {
                lemma_class_label_dropped(before_end, classes@, seen);
            }
        }
        Ok(Arff { records, labels, classes })
    }
}

/// Relies on rand's `SliceRandom::shuffle` with the thread-local generator: it only swaps
/// elements, so the records come back in some order, each as often as before.
#[verifier::external_body]
fn shuffle_records(records: &mut Vec<Record>)
    ensures
        final(records)@.to_multiset() == old(records)@.to_multiset(),
        final(records)@.len() == old(records)@.len(),
{
    records.as_mut_slice().shuffle(&mut thread_rng());
}

impl Arff {
    /// Puts the records in a random order; the attributes stay as they are.
    pub fn shuffle(&mut self)
        ensures
            final(self).records@.to_multiset() == old(self).records@.to_multiset(),
            final(self).records@.len() == old(self).records@.len(),
            final(self).labels@ == old(self).labels@,
            final(self).classes@ == old(self).classes@,
    {
        shuffle_records(&mut self.records);
    }
}

} // verus!
