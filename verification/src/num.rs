//! Decimal encoding and decoding of snapshot ids.
//!
//! The persisted forest file and every storage path spell snapshot ids in
//! decimal, so the codec below is the base of both.

use vstd::prelude::*;

verus! {

/// The decimal digit bytes of `n`, most significant first.
pub open spec fn dec_digits(n: nat) -> Seq<u8>
    decreases n,
{
    if n < 10 {
        seq![(48 + n) as u8]
    } else {
        dec_digits(n / 10).push((48 + n % 10) as u8)
    }
}

/// The numeric value of a sequence of decimal digit bytes.
pub open spec fn dec_value(s: Seq<u8>) -> int
    decreases s.len(),
{
    if s.len() == 0 {
        0
    } else {
        dec_value(s.drop_last()) * 10 + s.last() - 48
    }
}

pub open spec fn is_digit(b: u8) -> bool {
    48 <= b <= 57
}

pub open spec fn all_digits(s: Seq<u8>) -> bool {
    forall|i: int| 0 <= i < s.len() ==> is_digit(#[trigger] s[i])
}

/// `dec_digits` yields at least one digit byte and decodes back to `n`.
pub proof fn lemma_dec_digits_wf(n: nat)
    ensures
        dec_digits(n).len() >= 1,
        all_digits(dec_digits(n)),
        dec_value(dec_digits(n)) == n,
    decreases n,
{
    if n < 10 {
        let s = dec_digits(n);
        assert(s =~= seq![(48 + n) as u8]);
        assert(s.drop_last() =~= Seq::<u8>::empty());
        assert(dec_value(Seq::<u8>::empty()) == 0);
        assert(s.last() == (48 + n) as u8);
        assert(dec_value(s) == 0 * 10 + s.last() - 48);
    } else {
        lemma_dec_digits_wf(n / 10);
        let s = dec_digits(n);
        assert(s.drop_last() =~= dec_digits(n / 10));
        assert(s.last() == (48 + n % 10) as u8);
        vstd::arithmetic::div_mod::lemma_fundamental_div_mod(n as int, 10);
        assert(dec_value(s) == (n / 10) * 10 + n % 10);
    }
}

/// Under `all_digits` a decimal value is never negative.
pub proof fn lemma_dec_value_nonneg(s: Seq<u8>)
    requires
        all_digits(s),
    ensures
        dec_value(s) >= 0,
    decreases s.len(),
{
    if s.len() > 0 {
        assert(all_digits(s.drop_last())) by {
            assert(forall|i: int| 0 <= i < s.len() - 1 ==> s.drop_last()[i] == s[i]);
        }
        lemma_dec_value_nonneg(s.drop_last());
    }
}

/// Extending a digit string on the right never shrinks its value.
pub proof fn lemma_dec_value_prefix(s: Seq<u8>, k: int)
    requires
        0 <= k <= s.len(),
        all_digits(s),
    ensures
        dec_value(s.take(k)) <= dec_value(s),
    decreases s.len() - k,
{
    if k < s.len() {
        lemma_dec_value_prefix(s, k + 1);
        let p = s.take(k + 1);
        assert(p.drop_last() =~= s.take(k));
        assert(all_digits(s.take(k))) by {
            assert(forall|i: int| 0 <= i < k ==> s.take(k)[i] == s[i]);
        }
        lemma_dec_value_nonneg(s.take(k));
        assert(dec_value(s.take(k)) * 10 >= dec_value(s.take(k)));
        assert(dec_value(s.take(k)) <= dec_value(p));
    } else {
        assert(s.take(k) =~= s);
    }
}

/// The position right after the run of digit bytes that starts at `from`.
pub open spec fn digit_end(t: Seq<u8>, from: int) -> int
    decreases t.len() - from when 0 <= from <= t.len()
{
    if from < t.len() && is_digit(t[from]) {
        digit_end(t, from + 1)
    } else {
        from
    }
}

pub proof fn lemma_digit_end_bounds(t: Seq<u8>, from: int)
    requires
        0 <= from <= t.len(),
    ensures
        from <= digit_end(t, from) <= t.len(),
        all_digits(t.subrange(from, digit_end(t, from))),
        digit_end(t, from) < t.len() ==> !is_digit(t[digit_end(t, from)]),
        forall|i: int| from <= i < digit_end(t, from) ==> is_digit(#[trigger] t[i]),
    decreases t.len() - from,
{
    if from < t.len() && is_digit(t[from]) {
        lemma_digit_end_bounds(t, from + 1);
        let e = digit_end(t, from);
        assert(forall|i: int| 0 <= i < e - from ==> t.subrange(from, e)[i] == t[from + i]);
    }
}

/// The digit run of a string that starts with `d` digits followed by a
/// non-digit (or nothing) is exactly those `d` digits.
pub proof fn lemma_digit_end_concat(t: Seq<u8>, from: int, d: int)
    requires
        0 <= from,
        from + d <= t.len(),
        d >= 0,
        forall|i: int| from <= i < from + d ==> is_digit(#[trigger] t[i]),
        from + d < t.len() ==> !is_digit(t[from + d]),
    ensures
        digit_end(t, from) == from + d,
    decreases d,
{
    if d > 0 {
        lemma_digit_end_concat(t, from + 1, d - 1);
    }
}

/// Reads the decimal number that starts at `from`, returning its value and
/// the position just past it.  Fails when no digit stands at `from` or the
/// value does not fit in a `u64`.
pub open spec fn parse_dec_fails(t: Seq<u8>, from: int) -> bool {
    digit_end(t, from) == from || dec_value(t.subrange(from, digit_end(t, from))) > u64::MAX
}

pub fn parse_dec(t: &Vec<u8>, from: usize) -> (r: Option<(u64, usize)>)
    requires
        from <= t@.len(),
    ensures
        match r {
            Some(p) => {
                &&& !parse_dec_fails(t@, from as int)
                &&& p.1 == digit_end(t@, from as int)
                &&& from < p.1 <= t@.len()
                &&& p.0 == dec_value(t@.subrange(from as int, p.1 as int))
            },
            None => parse_dec_fails(t@, from as int),
        },
{
    proof {
        lemma_digit_end_bounds(t@, from as int);
    }
    let ghost e: int = digit_end(t@, from as int);
    if from >= t.len() || t[from] < 48 || t[from] > 57 {
        return None;
    }
    let mut i: usize = from;
    let mut acc: u64 = 0;
    while i < t.len() && 48 <= t[i] && t[i] <= 57
        invariant
            from <= i <= t@.len(),
            e == digit_end(t@, from as int),
            from <= e <= t@.len(),
            digit_end(t@, i as int) == e,
            all_digits(t@.subrange(from as int, e)),
            i <= e,
            acc == dec_value(t@.subrange(from as int, i as int)),
        decreases t@.len() - i,
    {
        let d: u64 = (t[i] - 48) as u64;
        proof {
            lemma_dec_value_nonneg(t@.subrange(from as int, i as int));
            assert(digit_end(t@, i as int) == digit_end(t@, i as int + 1));
            lemma_digit_end_bounds(t@, i as int + 1);
        }
        if acc > (u64::MAX - d) / 10 {
            proof {
                assert(acc * 10 + d > u64::MAX) by (nonlinear_arith)
                    requires
                        acc > (u64::MAX - d) / 10,
                        d <= 9,
                {}
                let p = t@.subrange(from as int, i as int + 1);
                assert(p.drop_last() =~= t@.subrange(from as int, i as int));
                assert(p.last() == t@[i as int]);
                assert(dec_value(p) == acc * 10 + d);
                assert(i + 1 <= e);
                let full = t@.subrange(from as int, e);
                assert(p =~= full.take(i + 1 - from));
                lemma_dec_value_prefix(full, i + 1 - from);
                assert(dec_value(full) > u64::MAX);
            }
            return None;
        }
        proof {
            assert(acc * 10 + d <= u64::MAX) by (nonlinear_arith)
                requires
                    acc <= (u64::MAX - d) / 10,
                    d <= 9,
                    acc >= 0,
            {}
            let p = t@.subrange(from as int, i as int + 1);
            assert(p.drop_last() =~= t@.subrange(from as int, i as int));
            assert(p.last() == t@[i as int]);
        }
        acc = acc * 10 + d;
        i = i + 1;
    }
    proof {
        assert(digit_end(t@, i as int) == i as int);
    }
    Some((acc, i))
}

/// Writes `n` in decimal, most significant digit first.
pub fn u64_to_dec(n: u64) -> (r: Vec<u8>)
    ensures
        r@ == dec_digits(n as nat),
    decreases n,
{
    if n < 10 {
        let mut v: Vec<u8> = Vec::new();
        v.push(48 + n as u8);
        proof {
            assert(v@ =~= dec_digits(n as nat));
        }
        v
    } else {
        let mut v = u64_to_dec(n / 10);
        v.push(48 + (n % 10) as u8);
        proof {
            assert(v@ =~= dec_digits(n as nat));
        }
        v
    }
}

} // verus!
