//! Decimal ASCII numbers: the encoding used by the wire format's length
//! field, and the signed values carried in integer responses.

use vstd::prelude::*;

verus! {

/// The decimal ASCII digits of `n`, most significant first; at least one
/// digit (zero is written `"0"`).
pub open spec fn dec_digits(n: nat) -> Seq<u8>
    decreases n,
{
    if n < 10 {
        seq![(48 + n) as u8]
    } else {
        dec_digits(n / 10).push((48 + n % 10) as u8)
    }
}

pub open spec fn is_digit(b: u8) -> bool {
    48 <= b <= 57
}

pub open spec fn all_digits(s: Seq<u8>) -> bool {
    forall|i: int| 0 <= i < s.len() ==> is_digit(#[trigger] s[i])
}

/// The value of a digit string, most significant digit first.
pub open spec fn dec_val(s: Seq<u8>) -> nat
    decreases s.len(),
{
    if s.len() == 0 {
        0
    } else {
        dec_val(s.drop_last()) * 10 + (s.last() - 48) as nat
    }
}

/// Every digit of `dec_digits(n)` is a decimal digit, and there is at
/// least one.
pub proof fn lemma_dec_digits_shape(n: nat)
    ensures
        dec_digits(n).len() >= 1,
        all_digits(dec_digits(n)),
    decreases n,
{
    if n >= 10 {
        lemma_dec_digits_shape(n / 10);
        assert(is_digit(dec_digits(n).last()));
    }
}

/// Reading the digits of `n` back as a decimal number gives `n`.
pub proof fn lemma_dec_digits_val(n: nat)
    ensures
        dec_val(dec_digits(n)) == n,
    decreases n,
{
    if n < 10 {
        assert(dec_digits(n) =~= seq![(48 + n) as u8]);
        assert(dec_digits(n).len() == 1);
        assert(dec_digits(n).drop_last() =~= Seq::<u8>::empty());
        assert(dec_val(Seq::<u8>::empty()) == 0);
        assert(dec_val(dec_digits(n)) == dec_val(dec_digits(n).drop_last()) * 10 + (
        dec_digits(n).last() - 48) as nat);
        assert(dec_digits(n).last() == (48 + n) as u8);
        assert(((48 + n) as u8 - 48) as nat == n);
    } else {
        lemma_dec_digits_val(n / 10);
        assert(dec_digits(n).drop_last() =~= dec_digits(n / 10));
        assert(dec_digits(n).last() == (48 + n % 10) as u8);
        assert(((48 + n % 10) as u8 - 48) as nat == n % 10);
        assert(dec_val(dec_digits(n)) == (n / 10) * 10 + n % 10);
        assert((n / 10) * 10 + n % 10 == n) by (nonlinear_arith);
    }
}

/// Appending digits never decreases the decimal value.
pub proof fn lemma_dec_val_prefix(s: Seq<u8>, t: Seq<u8>)
    requires
        s.is_prefix_of(t),
        all_digits(t),
    ensures
        dec_val(s) <= dec_val(t),
    decreases t.len(),
{
    if s.len() < t.len() {
        assert(s.is_prefix_of(t.drop_last()));
        assert(all_digits(t.drop_last()));
        lemma_dec_val_prefix(s, t.drop_last());
        assert(is_digit(t.last()));
        assert(dec_val(t.drop_last()) * 10 >= dec_val(t.drop_last()));
    } else {
        assert(s =~= t);
    }
}

/// Appends the decimal digits of `n` to `out`.
pub fn push_dec(n: usize, out: &mut Vec<u8>)
    ensures
        final(out)@ == old(out)@ + dec_digits(n as nat),
    decreases n,
{
    if n >= 10 {
        push_dec(n / 10, out);
    }
    out.push((48 + n % 10) as u8);
    proof {
        assert(final(out)@ =~= old(out)@ + dec_digits(n as nat));
    }
}

/// Parses the digit range `s[from..to]` as a number; `None` exactly when
/// the value does not fit in `usize`.
pub fn parse_dec(s: &Vec<u8>, from: usize, to: usize) -> (r: Option<usize>)
    requires
        from <= to <= s@.len(),
        all_digits(s@.subrange(from as int, to as int)),
    ensures
        r matches Some(n) ==> n as nat == dec_val(s@.subrange(from as int, to as int)),
        r is None ==> dec_val(s@.subrange(from as int, to as int)) > usize::MAX,
{
    let ghost full = s@.subrange(from as int, to as int);
    let mut acc: usize = 0;
    let mut i: usize = from;
    while i < to
        invariant
            from <= i <= to <= s@.len(),
            all_digits(full),
            full == s@.subrange(from as int, to as int),
            acc as nat == dec_val(s@.subrange(from as int, i as int)),
        decreases to - i,
    {
        let d = s[i];
        assert(full[i - from] == d);
        assert(is_digit(d));
        let ghost pre = s@.subrange(from as int, i as int);
        let ghost cur = s@.subrange(from as int, i + 1 as int);
        proof {
            assert(cur.drop_last() =~= pre);
            assert(cur.last() == d);
        }
        if acc > usize::MAX / 10 || (acc == usize::MAX / 10 && d - 48 > (usize::MAX % 10) as u8) {
            proof {
                assert(dec_val(cur) == acc * 10 + (d - 48) as nat);
                assert(dec_val(cur) > usize::MAX);
                assert(cur.is_prefix_of(full));
                lemma_dec_val_prefix(cur, full);
            }
            return None;
        }
        acc = acc * 10 + (d - 48) as usize;
        i = i + 1;
    }
    proof {
        assert(s@.subrange(from as int, to as int) =~= full);
    }
    Some(acc)
}

/// The signed decimal value of a byte string: an optional sign (`-` or
/// `+`), then at least one digit, within the range of `i64`. Anything
/// else (empty, stray characters, out of range) has no value.
pub open spec fn int_of(s: Seq<u8>) -> Option<int> {
    if s.len() >= 2 && (s[0] == 45 || s[0] == 43) {
        let d = s.subrange(1, s.len() as int);
        if s[0] == 45 {
            if all_digits(d) && dec_val(d) <= i64::MAX + 1 {
                Some(-(dec_val(d) as int))
            } else {
                None
            }
        } else {
            if all_digits(d) && dec_val(d) <= i64::MAX {
                Some(dec_val(d) as int)
            } else {
                None
            }
        }
    } else if s.len() >= 1 && all_digits(s) && dec_val(s) <= i64::MAX {
        Some(dec_val(s) as int)
    } else {
        None
    }
}

/// Parses a byte string as a signed decimal `i64`; `None` exactly when
/// [`int_of`] gives it no value.
#[verifier::loop_isolation(false)]
pub fn parse_i64(s: &Vec<u8>) -> (r: Option<i64>)
    ensures
        r matches Some(v) ==> int_of(s@) == Some(v as int),
        r is None ==> int_of(s@) is None,
{
    let signed = s.len() >= 2 && (s[0] == 45 || s[0] == 43);
    let neg = signed && s[0] == 45;
    let from: usize = if signed {
        1
    } else {
        0
    };
    if s.len() == from {
        return None;
    }
    let ghost d = s@.subrange(from as int, s@.len() as int);
    let mut acc: u64 = 0;
    let mut i: usize = from;
    while i < s.len()
        invariant
            from <= i <= s@.len(),
            forall|k: int| from <= k < i ==> is_digit(#[trigger] s@[k]),
            acc as nat == dec_val(s@.subrange(from as int, i as int)),
        decreases s@.len() - i,
    {
        let b = s[i];
        if b < 48 || b > 57 {
            proof {
                assert(d[i - from] == s@[i as int]);
                assert(!all_digits(d));
            }
            return None;
        }
        let ghost pre = s@.subrange(from as int, i as int);
        let ghost cur = s@.subrange(from as int, i + 1 as int);
        proof {
            assert(cur.drop_last() =~= pre);
            assert(cur.last() == b);
        }
        if acc > u64::MAX / 10 || (acc == u64::MAX / 10 && b - 48 > (u64::MAX % 10) as u8) {
            proof {
                assert(dec_val(cur) == acc * 10 + (b - 48) as nat);
                assert(dec_val(cur) > u64::MAX);
                if all_digits(d) {
                    assert(cur =~= d.subrange(0, cur.len() as int));
                    assert(cur.is_prefix_of(d));
                    lemma_dec_val_prefix(cur, d);
                    assert(dec_val(d) > i64::MAX + 1);
                }
                if !signed {
                    assert(s@ =~= d);
                }
                assert(int_of(s@) is None);
            }
            return None;
        }
        acc = acc * 10 + (b - 48) as u64;
        i = i + 1;
    }
    proof {
        assert(s@.subrange(from as int, s@.len() as int) =~= d);
        assert forall|k: int| 0 <= k < d.len() implies is_digit(#[trigger] d[k]) by {
            assert(d[k] == s@[from + k]);
        }
        assert(all_digits(d));
        assert(acc as nat == dec_val(d));
    }
    if neg {
        if acc > 9223372036854775808u64 {
            return None;
        }
        if acc == 9223372036854775808u64 {
            return Some(i64::MIN);
        }
        Some(-(acc as i64))
    } else {
        if acc > i64::MAX as u64 {
            proof {
                if !signed {
                    assert(s@ =~= d);
                }
            }
            return None;
        }
        proof {
            if !signed {
                assert(s@ =~= d);
            }
        }
        Some(acc as i64)
    }
}

} // verus!
