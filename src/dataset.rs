//! The dataset text format: numbers separated by ASCII whitespace. Weights
//! are decimal integers; target shares are decimals such as `0.25`, read in
//! parts per million with digits past the sixth decimal place cut off.
use vstd::prelude::*;
use crate::gene::PPM;
use crate::model::GaError;

verus! {

pub open spec fn is_space(c: u8) -> bool {
    c == 32 || (9 <= c <= 13)
}

pub open spec fn is_digit(c: u8) -> bool {
    48 <= c <= 57
}

/// The words of `s`: its maximal runs of bytes that are not whitespace.
pub open spec fn words(s: Seq<u8>) -> Seq<Seq<u8>>
    decreases s.len(),
{
    if s.len() == 0 {
        seq![]
    } else {
        let p = s.drop_last();
        let c = s.last();
        if is_space(c) {
            words(p)
        } else if p.len() > 0 && !is_space(p.last()) {
            let w = words(p);
            w.update(w.len() - 1, w.last().push(c))
        } else {
            words(p).push(seq![c])
        }
    }
}

pub open spec fn all_digits(t: Seq<u8>) -> bool {
    forall|k: int| 0 <= k < t.len() ==> is_digit(#[trigger] t[k])
}

/// Value of a string of decimal digits.
pub open spec fn decimal(t: Seq<u8>) -> int
    decreases t.len(),
{
    if t.len() == 0 {
        0
    } else {
        decimal(t.drop_last()) * 10 + (t.last() - 48)
    }
}

/// A weight: one or more digits.
pub open spec fn weight_word_ok(t: Seq<u8>) -> bool {
    t.len() >= 1 && all_digits(t) && decimal(t) <= u32::MAX
}

/// Index of the first `.` of `t`, or -1.
pub open spec fn dot_index(t: Seq<u8>) -> int
    decreases t.len(),
{
    if t.len() == 0 {
        -1
    } else if dot_index(t.drop_last()) == -1 && t.last() == 46 {
        t.len() - 1
    } else {
        dot_index(t.drop_last())
    }
}

/// The first six digits of `f`, padded with zeros to six.
pub open spec fn six_places(f: Seq<u8>) -> Seq<u8> {
    Seq::new(6, |k: int| if k < f.len() { f[k] } else { 48u8 })
}

/// A share: digits, then optionally a `.` and more digits.
pub open spec fn share_syntax_ok(t: Seq<u8>) -> bool {
    let d = dot_index(t);
    if d == -1 {
        t.len() >= 1 && all_digits(t)
    } else {
        d >= 1 && all_digits(t.take(d)) && all_digits(t.skip(d + 1))
    }
}

/// A share in parts per million, digits past the sixth decimal place cut off.
pub open spec fn share_ppm(t: Seq<u8>) -> int {
    let d = dot_index(t);
    if d == -1 {
        decimal(t) * PPM as int
    } else {
        decimal(t.take(d)) * PPM as int + decimal(six_places(t.skip(d + 1)))
    }
}

pub open spec fn share_word_ok(t: Seq<u8>) -> bool {
    share_syntax_ok(t) && share_ppm(t) <= u32::MAX
}

proof fn lemma_words_open(s: Seq<u8>)
    requires
        s.len() > 0,
        !is_space(s.last()),
    ensures
        words(s).len() > 0,
    decreases s.len(),
{
    let p = s.drop_last();
    if p.len() > 0 && !is_space(p.last()) {
        lemma_words_open(p);
    }
}

proof fn lemma_decimal_grows(t: Seq<u8>, k: int)
    requires
        0 <= k <= t.len(),
        all_digits(t),
    ensures
        decimal(t.take(k)) <= decimal(t),
        decimal(t.take(k)) >= 0,
    decreases t.len() - k,
{
    if k < t.len() {
        lemma_decimal_grows(t, k + 1);
        assert(t.take(k + 1).drop_last() =~= t.take(k));
    } else {
        assert(t.take(k) =~= t);
    }
    lemma_decimal_nonneg(t.take(k));
}

proof fn lemma_decimal_nonneg(t: Seq<u8>)
    requires
        all_digits(t),
    ensures
        decimal(t) >= 0,
    decreases t.len(),
{
    if t.len() > 0 {
        lemma_decimal_nonneg(t.drop_last());
    }
}

/// Splits `s` into its words.
pub fn split_words(s: &Vec<u8>) -> (r: Vec<Vec<u8>>)
    ensures
        r@.len() == words(s@).len(),
        forall|j: int| 0 <= j < r@.len() ==> (#[trigger] r@[j])@ == words(s@)[j],
{
    let mut tokens: Vec<Vec<u8>> = Vec::new();
    let mut i: usize = 0;
    while i < s.len()
        invariant
            0 <= i <= s@.len(),
            tokens@.len() == words(s@.take(i as int)).len(),
            forall|j: int| 0 <= j < tokens@.len() ==> (#[trigger] tokens@[j])@ == words(s@.take(i as int))[j],
        decreases s@.len() - i,
    {
        let c = s[i];
        let ghost p = s@.take(i as int);
        assert(s@.take(i as int + 1).drop_last() =~= p);
        let is_sp = c == 32 || (9 <= c && c <= 13);
        if is_sp {
        } else if i > 0 && !(s[i - 1] == 32 || (9 <= s[i - 1] && s[i - 1] <= 13)) {
            proof {
                lemma_words_open(p);
            }
            let mut t = tokens.pop().unwrap();
            t.push(c);
            tokens.push(t);
            proof {
                let w = words(p);
                assert forall|j: int| 0 <= j < tokens@.len() implies (#[trigger] tokens@[j])@ == words(s@.take(i as int + 1))[j] by {
                    if j == tokens@.len() - 1 {
                        assert(tokens@[j]@ =~= w.last().push(c));
                    }
                }
            }
        } else {
            let mut t: Vec<u8> = Vec::new();
            t.push(c);
            tokens.push(t);
            proof {
                assert(tokens@.last()@ =~= seq![c]);
            }
        }
        i = i + 1;
    }
    assert(s@.take(s@.len() as int) =~= s@);
    tokens
}

/// Value of a word of digits, or `None` when it holds another byte or its
/// value passes `u32::MAX`.
fn read_decimal(t: &Vec<u8>) -> (r: Option<u32>)
    ensures
        r is Some <==> all_digits(t@) && decimal(t@) <= u32::MAX,
        r matches Some(v) ==> v as int == decimal(t@),
{
    let mut acc: u64 = 0;
    let mut k: usize = 0;
    while k < t.len()
        invariant
            0 <= k <= t@.len(),
            all_digits(t@.take(k as int)),
            acc as int == decimal(t@.take(k as int)),
            acc <= u32::MAX,
        decreases t@.len() - k,
    {
        let c = t[k];
        if c < 48 || c > 57 {
            return None;
        }
        assert(t@.take(k as int + 1).drop_last() =~= t@.take(k as int));
        acc = acc * 10 + (c - 48) as u64;
        if acc > u32::MAX as u64 {
            proof {
                if all_digits(t@) {
                    lemma_decimal_grows(t@, k as int + 1);
                }
            }
            return None;
        }
        k = k + 1;
    }
    assert(t@.take(k as int) =~= t@);
    Some(acc as u32)
}

/// Reads property weights: `Ok` with one weight per word exactly when every
/// word is a decimal integer that fits in `u32`; `DatasetFormat` otherwise.
pub fn parse_weights(s: &Vec<u8>) -> (r: Result<Vec<u32>, GaError>)
    ensures
        r is Ok <==> forall|j: int| 0 <= j < words(s@).len() ==> weight_word_ok(#[trigger] words(s@)[j]),
        r is Err ==> r == Err::<Vec<u32>, GaError>(GaError::DatasetFormat),
        r matches Ok(v) ==> v@.len() == words(s@).len() && forall|j: int| 0 <= j < v@.len() ==> #[trigger] v@[j] as int == decimal(words(s@)[j]),
{
    let tokens = split_words(s);
    let mut out: Vec<u32> = Vec::new();
    let mut j: usize = 0;
    while j < tokens.len()
        invariant
            0 <= j <= tokens@.len(),
            tokens@.len() == words(s@).len(),
            forall|t: int| 0 <= t < tokens@.len() ==> (#[trigger] tokens@[t])@ == words(s@)[t],
            out@.len() == j,
            forall|t: int| 0 <= t < j ==> weight_word_ok(#[trigger] words(s@)[t]),
            forall|t: int| 0 <= t < j ==> #[trigger] out@[t] as int == decimal(words(s@)[t]),
        decreases tokens@.len() - j,
    {
        if tokens[j].len() == 0 {
            return Err(GaError::DatasetFormat);
        }
        match read_decimal(&tokens[j]) {
            Some(v) => out.push(v),
            None => {
                return Err(GaError::DatasetFormat);
            },
        }
        j = j + 1;
    }
    Ok(out)
}

pub open spec fn pow10(k: nat) -> int
    decreases k,
{
    if k == 0 {
        1
    } else {
        10 * pow10((k - 1) as nat)
    }
}

proof fn lemma_pow10_mono(k: nat, m: nat)
    requires
        k <= m,
    ensures
        1 <= pow10(k) <= pow10(m),
    decreases m - k,
{
    if k < m {
        lemma_pow10_mono(k, (m - 1) as nat);
    } else {
        lemma_pow10_pos(k);
    }
}

proof fn lemma_pow10_pos(k: nat)
    ensures
        pow10(k) >= 1,
    decreases k,
{
    if k > 0 {
        lemma_pow10_pos((k - 1) as nat);
    }
}

/// The bytes of `t` from `from` up to `to`.
fn sub_bytes(t: &Vec<u8>, from: usize, to: usize) -> (r: Vec<u8>)
    requires
        from <= to <= t@.len(),
    ensures
        r@ == t@.subrange(from as int, to as int),
{
    let mut r: Vec<u8> = Vec::new();
    let mut k: usize = from;
    while k < to
        invariant
            from <= k <= to,
            to <= t@.len(),
            r@ == t@.subrange(from as int, k as int),
        decreases to - k,
    {
        r.push(t[k]);
        k = k + 1;
        assert(r@ =~= t@.subrange(from as int, k as int));
    }
    r
}

fn digits_only(t: &Vec<u8>) -> (r: bool)
    ensures
        r <==> all_digits(t@),
{
    let mut k: usize = 0;
    while k < t.len()
        invariant
            0 <= k <= t@.len(),
            all_digits(t@.take(k as int)),
        decreases t@.len() - k,
    {
        if t[k] < 48 || t[k] > 57 {
            assert(!is_digit(t@[k as int]));
            return false;
        }
        k = k + 1;
        assert(forall|x: int| 0 <= x < k ==> #[trigger] t@.take(k as int)[x] == t@.take(k as int - 1)[x] || x == k - 1);
    }
    assert(t@.take(k as int) =~= t@);
    true
}

/// Value of the first six digits of `f`, padded with zeros.
fn six_places_value(f: &Vec<u8>) -> (r: u64)
    requires
        all_digits(f@),
    ensures
        r as int == decimal(six_places(f@)),
        r < 1_000_000,
{
    let ghost six = six_places(f@);
    let mut acc: u64 = 0;
    let mut k: usize = 0;
    while k < 6
        invariant
            0 <= k <= 6,
            all_digits(f@),
            six == six_places(f@),
            acc as int == decimal(six.take(k as int)),
            acc < pow10(k as nat),
        decreases 6 - k,
    {
        let c: u8 = if k < f.len() {
            f[k]
        } else {
            48
        };
        assert(c == six[k as int]);
        assert(six.take(k as int + 1).drop_last() =~= six.take(k as int));
        assert(pow10((k + 1) as nat) == 10 * pow10(k as nat));
        proof {
            lemma_pow10_mono(k as nat, 5);
            assert(pow10(5) == 100_000) by {
                reveal_with_fuel(pow10, 6);
            }
        }
        acc = acc * 10 + (c - 48) as u64;
        k = k + 1;
    }
    assert(six.take(6) =~= six);
    assert(pow10(6) == 1_000_000) by {
        reveal_with_fuel(pow10, 7);
    }
    acc
}

/// A share in parts per million, or `None` when the word is not a share or
/// its value passes `u32::MAX`.
fn read_share(t: &Vec<u8>) -> (r: Option<u32>)
    ensures
        r is Some <==> share_word_ok(t@),
        r matches Some(v) ==> v as int == share_ppm(t@),
{
    let mut dot: Option<usize> = None;
    let mut k: usize = 0;
    while k < t.len()
        invariant
            0 <= k <= t@.len(),
            dot is None <==> dot_index(t@.take(k as int)) == -1,
            dot matches Some(x) ==> x as int == dot_index(t@.take(k as int)) && x < k,
        decreases t@.len() - k,
    {
        assert(t@.take(k as int + 1).drop_last() =~= t@.take(k as int));
        if dot.is_none() && t[k] == 46 {
            dot = Some(k);
        }
        k = k + 1;
    }
    assert(t@.take(k as int) =~= t@);
    match dot {
        None => {
            if t.len() == 0 {
                return None;
            }
            match read_decimal(t) {
                None => {
                    proof {
                        if all_digits(t@) {
                            assert(decimal(t@) * PPM as int >= decimal(t@));
                        }
                    }
                    None
                },
                Some(a) => {
                    let v: u64 = a as u64 * PPM as u64;
                    if v > u32::MAX as u64 {
                        None
                    } else {
                        Some(v as u32)
                    }
                },
            }
        },
        Some(d) => {
            if d == 0 {
                return None;
            }
            let int_part = sub_bytes(t, 0, d);
            let frac = sub_bytes(t, d + 1, t.len());
            assert(int_part@ =~= t@.take(d as int));
            assert(frac@ =~= t@.skip(d as int + 1));
            if !digits_only(&frac) {
                return None;
            }
            let fv = six_places_value(&frac);
            proof {
                lemma_decimal_nonneg(six_places(frac@));
            }
            match read_decimal(&int_part) {
                None => {
                    proof {
                        if all_digits(int_part@) {
                            assert(decimal(int_part@) * PPM as int >= decimal(int_part@));
                        }
                    }
                    None
                },
                Some(a) => {
                    let v: u64 = a as u64 * PPM as u64 + fv;
                    if v > u32::MAX as u64 {
                        None
                    } else {
                        Some(v as u32)
                    }
                },
            }
        },
    }
}

/// Reads target shares: `Ok` with one share per word, in parts per million,
/// exactly when every word is a share (digits, optionally followed by `.`
/// and digits) whose value fits in `u32`; `DatasetFormat` otherwise.
pub fn parse_shares(s: &Vec<u8>) -> (r: Result<Vec<u32>, GaError>)
    ensures
        r is Ok <==> forall|j: int| 0 <= j < words(s@).len() ==> share_word_ok(#[trigger] words(s@)[j]),
        r is Err ==> r == Err::<Vec<u32>, GaError>(GaError::DatasetFormat),
        r matches Ok(v) ==> v@.len() == words(s@).len() && forall|j: int| 0 <= j < v@.len() ==> #[trigger] v@[j] as int == share_ppm(words(s@)[j]),
{
    let tokens = split_words(s);
    let mut out: Vec<u32> = Vec::new();
    let mut j: usize = 0;
    while j < tokens.len()
        invariant
            0 <= j <= tokens@.len(),
            tokens@.len() == words(s@).len(),
            forall|t: int| 0 <= t < tokens@.len() ==> (#[trigger] tokens@[t])@ == words(s@)[t],
            out@.len() == j,
            forall|t: int| 0 <= t < j ==> share_word_ok(#[trigger] words(s@)[t]),
            forall|t: int| 0 <= t < j ==> #[trigger] out@[t] as int == share_ppm(words(s@)[t]),
        decreases tokens@.len() - j,
    {
        match read_share(&tokens[j]) {
            Some(v) => out.push(v),
            None => {
                return Err(GaError::DatasetFormat);
            },
        }
        j = j + 1;
    }
    Ok(out)
}

} // verus!
