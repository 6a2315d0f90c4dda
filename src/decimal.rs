use vstd::prelude::*;

verus! {

pub open spec fn is_digit(b: u8) -> bool {
    48 <= b <= 57
}

pub open spec fn all_digits(s: Seq<u8>) -> bool {
    forall|i: int| 0 <= i < s.len() ==> is_digit(#[trigger] s[i])
}

/// Value of a run of decimal digits.
pub open spec fn digits_value(s: Seq<u8>) -> nat
    decreases s.len(),
{
    if s.len() == 0 {
        0
    } else {
        digits_value(s.drop_last()) * 10 + (s.last() - 48) as nat
    }
}

/// Value of the first `k` fraction digits of `f`, padded with zeros.
pub open spec fn fraction_value(f: Seq<u8>, k: nat) -> nat
    decreases k,
{
    if k == 0 {
        0
    } else {
        let d: nat = if k - 1 < f.len() { (f[k - 1] - 48) as nat } else { 0 };
        fraction_value(f, (k - 1) as nat) * 10 + d
    }
}

/// Index of the first '.' at or after `i`, or the length when there is none.
pub open spec fn dot_from(s: Seq<u8>, i: int) -> int
    decreases s.len() - i,
{
    if i >= s.len() {
        s.len() as int
    } else if s[i] == 46 {
        i
    } else {
        dot_from(s, i + 1)
    }
}

/// The largest whole part whose value in units of 1e-12 fits in `u128`.
pub const INT_LIMIT: u128 = 340_282_366_920_938_463_463_374_607;

pub open spec fn int_part(s: Seq<u8>) -> Seq<u8> {
    s.take(dot_from(s, 0))
}

pub open spec fn frac_part(s: Seq<u8>) -> Seq<u8> {
    if dot_from(s, 0) < s.len() {
        s.skip(dot_from(s, 0) + 1)
    } else {
        Seq::empty()
    }
}

/// A decimal text: one or more digits, then optionally a '.' and one or more digits.
pub open spec fn is_decimal_text(s: Seq<u8>) -> bool {
    &&& int_part(s).len() > 0
    &&& all_digits(int_part(s))
    &&& dot_from(s, 0) < s.len() ==> frac_part(s).len() > 0 && all_digits(frac_part(s))
}

/// Number of units in one whole: amounts carry twelve decimals.
pub const SCALE: u128 = 1_000_000_000_000;

/// The value of a decimal text in units of 1e-12; digits past the twelfth
/// decimal are dropped.
pub open spec fn decimal_units(s: Seq<u8>) -> nat {
    digits_value(int_part(s)) * 1_000_000_000_000 + fraction_value(frac_part(s), 12)
}

proof fn lemma_dot_from_start(s: Seq<u8>, i: int)
    requires
        0 <= i <= s.len(),
        forall|k: int| 0 <= k < i ==> s[k] != 46,
    ensures
        dot_from(s, 0) == dot_from(s, i),
    decreases i,
{
    if i > 0 {
        lemma_dot_from_start(s, i - 1);
    }
}

proof fn lemma_digits_take_step(s: Seq<u8>, i: int)
    requires
        0 <= i < s.len(),
    ensures
        digits_value(s.take(i + 1)) == digits_value(s.take(i)) * 10 + (s[i] - 48) as nat,
{
    assert(s.take(i + 1).drop_last() =~= s.take(i));
}

proof fn lemma_digits_prefix_le(s: Seq<u8>, j: int)
    requires
        0 <= j <= s.len(),
        all_digits(s),
    ensures
        digits_value(s.take(j)) <= digits_value(s),
    decreases s.len(),
{
    if j < s.len() {
        let t = s.drop_last();
        assert(all_digits(t));
        lemma_digits_prefix_le(t, j);
        assert(t.take(j) =~= s.take(j));
    } else {
        assert(s.take(j) =~= s);
    }
}

/// The value of a decimal text in units of 1e-12, where it is one and fits in `u128`.
pub open spec fn decimal_parse(s: Seq<u8>) -> Option<u128> {
    if is_decimal_text(s) && decimal_units(s) <= u128::MAX {
        Some(decimal_units(s) as u128)
    } else {
        None
    }
}

/// Reads a decimal text such as `"26990.50000"` as a count of units of 1e-12.
/// Returns `None` when the text is malformed or the value does not fit in `u128`.
pub fn parse_decimal(s: &[u8]) -> (r: Option<u128>)
    ensures
        r == decimal_parse(s@),
{
    let n = s.len();
    let mut p: usize = 0;
    while p < n && s[p] != 46
        invariant
            p <= n,
            n == s@.len(),
            forall|k: int| 0 <= k < p ==> s@[k] != 46,
        decreases n - p,
    {
        p = p + 1;
    }
    proof {
        lemma_dot_from_start(s@, p as int);
    }
    assert(dot_from(s@, 0) == p);
    let ghost ip = int_part(s@);
    assert(ip =~= s@.take(p as int));
    if p == 0 {
        return None;
    }
    let mut int_val: u128 = 0;
    let mut i: usize = 0;
    while i < p
        invariant
            i <= p,
            p <= n,
            n == s@.len(),
            ip == s@.take(p as int),
            ip == int_part(s@),
            int_val == digits_value(ip.take(i as int)),
            int_val <= INT_LIMIT,
            all_digits(ip.take(i as int)),
        decreases p - i,
    {
        let b = s[i];
        if b < 48 || b > 57 {
            assert(ip[i as int] == s@[i as int]);
            assert(!is_digit(ip[i as int]));
            return None;
        }
        proof {
            lemma_digits_take_step(ip, i as int);
        }
        let nv: u128 = int_val * 10 + (b - 48) as u128;
        if nv > INT_LIMIT {
            proof {
                if is_decimal_text(s@) {
                    lemma_digits_prefix_le(ip, i + 1);
                    let w = digits_value(int_part(s@));
                    assert(w * 1_000_000_000_000 > u128::MAX) by (nonlinear_arith)
                        requires w > INT_LIMIT;
                }
            }
            return None;
        }
        int_val = nv;
        i = i + 1;
        assert(all_digits(ip.take(i as int))) by {
            assert forall|k: int| 0 <= k < i implies is_digit(#[trigger] ip.take(i as int)[k]) by {
                if k < i - 1 {
                    assert(ip.take(i as int)[k] == ip.take(i - 1)[k]);
                }
            }
        }
    }
    assert(ip.take(p as int) =~= ip);
    let ghost fp = frac_part(s@);
    if p < n {
        if p + 1 == n {
            assert(fp.len() == 0);
            return None;
        }
        assert(fp =~= s@.subrange(p + 1, n as int));
        let mut j: usize = p + 1;
        while j < n
            invariant
                p + 1 <= j <= n,
                n == s@.len(),
                fp == s@.subrange(p + 1, n as int),
                fp == frac_part(s@),
                dot_from(s@, 0) == p,
                forall|k: int| 0 <= k < j - p - 1 ==> is_digit(#[trigger] fp[k]),
            decreases n - j,
        {
            if s[j] < 48 || s[j] > 57 {
                assert(fp[j - p - 1] == s@[j as int]);
                assert(!is_digit(fp[j - p - 1]));
                return None;
            }
            j = j + 1;
        }
    } else {
        assert(fp =~= Seq::<u8>::empty());
    }
    assert(is_decimal_text(s@));
    let mut frac: u128 = 0;
    let mut k: usize = 0;
    while k < 12
        invariant
            k <= 12,
            p <= n,
            n == s@.len(),
            dot_from(s@, 0) == p,
            fp == frac_part(s@),
            p < n ==> fp =~= s@.subrange(p + 1, n as int),
            p == n ==> fp.len() == 0,
            frac == fraction_value(fp, k as nat),
            int_val == digits_value(int_part(s@)),
            int_val <= INT_LIMIT,
            is_decimal_text(s@),
            all_digits(fp),
            frac < pow10_spec(k as nat),
        decreases 12 - k,
    {
        let d: u128 = if p < n && k < n - p - 1 {
            assert(fp[k as int] == s@[p + 1 + k]);
            (s[p + 1 + k] - 48) as u128
        } else {
            0
        };
        assert(d < 10);
        proof {
            lemma_pow10_le((k + 1) as nat);
            assert(frac * 10 + d < pow10_spec((k + 1) as nat)) by (nonlinear_arith)
                requires frac < pow10_spec(k as nat), d < 10,
                    pow10_spec((k + 1) as nat) == pow10_spec(k as nat) * 10;
        }
        frac = frac * 10 + d;
        k = k + 1;
    }
    proof {
        lemma_pow10_le(12);
        assert(int_val * 1_000_000_000_000 <= u128::MAX) by (nonlinear_arith)
            requires int_val <= INT_LIMIT;
    }
    (int_val * SCALE).checked_add(frac)
}

proof fn lemma_pow10_le(k: nat)
    requires
        k <= 12,
    ensures
        pow10_spec(k) <= 1_000_000_000_000,
{
    reveal_with_fuel(pow10_spec, 13);
    if k == 0 {
    } else if k == 1 {
    } else if k == 2 {
    } else if k == 3 {
    } else if k == 4 {
    } else if k == 5 {
    } else if k == 6 {
    } else if k == 7 {
    } else if k == 8 {
    } else if k == 9 {
    } else if k == 10 {
    } else if k == 11 {
    } else {
    }
}

pub open spec fn pow10_spec(k: nat) -> nat
    decreases k,
{
    if k == 0 {
        1
    } else {
        pow10_spec((k - 1) as nat) * 10
    }
}

} // verus!
