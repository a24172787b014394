//! The store's on-disk naming scheme: bucket directories and frame files are
//! named by base-10 non-negative integers, frame files carrying a `.txt`
//! suffix. This module parses such names back to numbers, renders numbers to
//! names, and proves the two directions agree.

use vstd::prelude::*;

verus! {

/// ASCII decimal digit.
pub open spec fn is_digit(b: u8) -> bool {
    0x30 <= b <= 0x39
}

/// Every byte of `s` is an ASCII decimal digit.
pub open spec fn all_digits(s: Seq<u8>) -> bool {
    forall|i: int| 0 <= i < s.len() ==> is_digit(#[trigger] s[i])
}

/// Numeric value of a digit string, most significant digit first.
pub open spec fn dec_value(s: Seq<u8>) -> int
    decreases s.len(),
{
    if s.len() == 0 {
        0
    } else {
        dec_value(s.drop_last()) * 10 + (s.last() - 0x30)
    }
}

/// What `str::parse::<u64>` accepts: an optional leading `+`, then one or
/// more decimal digits whose value fits in a `u64`.
pub open spec fn spec_parse_u64(s: Seq<u8>) -> Option<u64> {
    let digits = if s.len() >= 1 && s[0] == 0x2b {
        s.skip(1)
    } else {
        s
    };
    if digits.len() >= 1 && all_digits(digits) && dec_value(digits) <= u64::MAX {
        Some(dec_value(digits) as u64)
    } else {
        None
    }
}

/// A digit string's value is non-negative.
proof fn lemma_dec_value_nonneg(s: Seq<u8>)
    requires
        all_digits(s),
    ensures
        dec_value(s) >= 0,
    decreases s.len(),
{
    if s.len() > 0 {
        assert(all_digits(s.drop_last())) by {
            assert(forall|i: int| 0 <= i < s.len() - 1 ==> s.drop_last()[i] == s[i]);
        }
        lemma_dec_value_nonneg(s.drop_last());
    }
}

/// Appending one digit multiplies the value by ten and adds the digit.
proof fn lemma_dec_value_extend(s: Seq<u8>, i: int)
    requires
        0 <= i < s.len(),
    ensures
        dec_value(s.take(i + 1)) == dec_value(s.take(i)) * 10 + (s[i] - 0x30),
{
    assert(s.take(i + 1).drop_last() =~= s.take(i));
    assert(s.take(i + 1).last() == s[i]);
}

/// The value of a digit string never falls below the value of any prefix.
proof fn lemma_dec_value_prefix_le(s: Seq<u8>, i: int, j: int)
    requires
        all_digits(s),
        0 <= i <= j <= s.len(),
    ensures
        dec_value(s.take(i)) <= dec_value(s.take(j)),
    decreases j - i,
{
    if i < j {
        lemma_dec_value_prefix_le(s, i, j - 1);
        assert(all_digits(s.take(j - 1))) by {
            assert(forall|k: int| 0 <= k < j - 1 ==> s.take(j - 1)[k] == s[k]);
        }
        lemma_dec_value_nonneg(s.take(j - 1));
        lemma_dec_value_extend(s, j - 1);
    }
}

/// Parses a file or directory name as a base-10 `u64`, as `str::parse`
/// would: an optional `+` sign, then digits; rejects anything else and any
/// value that overflows.
pub fn parse_u64(s: &Vec<u8>) -> (r: Option<u64>)
    ensures
        r == spec_parse_u64(s@),
{
    let start: usize = if s.len() >= 1 && s[0] == 0x2b {
        1
    } else {
        0
    };
    let ghost digits = if s@.len() >= 1 && s@[0] == 0x2b {
        s@.skip(1)
    } else {
        s@
    };
    proof {
        assert(digits =~= s@.skip(start as int));
    }
    if s.len() == start {
        return None;
    }
    let mut acc: u128 = 0;
    let mut i: usize = start;
    while i < s.len()
        invariant
            start <= i <= s@.len(),
            start <= 1,
            s@.len() > start,
            digits == s@.skip(start as int),
            digits == (if s@.len() >= 1 && s@[0] == 0x2b {
                s@.skip(1)
            } else {
                s@
            }),
            all_digits(digits.take(i - start)),
            acc == dec_value(digits.take(i - start)),
            acc <= u64::MAX,
        decreases s@.len() - i,
    {
        let b = s[i];
        if b < 0x30 || b > 0x39 {
            proof {
                assert(digits[i - start] == s@[i as int]);
                assert(!is_digit(digits[i - start]));
            }
            return None;
        }
        proof {
            lemma_dec_value_extend(digits, i - start);
            assert(digits.take(i - start + 1)[i - start] == digits[i - start]);
            assert(forall|k: int|
                0 <= k < i - start ==> #[trigger] digits.take(i - start + 1)[k] == digits.take(
                    i - start,
                )[k]);
        }
        acc = acc * 10 + ((b - 0x30) as u128);
        i = i + 1;
        if acc > u64::MAX as u128 {
            proof {
                if all_digits(digits) {
                    lemma_dec_value_prefix_le(digits, i - start, digits.len() as int);
                    assert(digits.take(digits.len() as int) =~= digits);
                }
            }
            return None;
        }
    }
    proof {
        assert(digits.take(digits.len() as int) =~= digits);
    }
    Some(acc as u64)
}

/// Decimal rendering of `n`, most significant digit first, no leading
/// zeros (a single `0` for zero).
pub open spec fn spec_repr(n: nat) -> Seq<u8>
    decreases n,
{
    if n < 10 {
        seq![(0x30 + n) as u8]
    } else {
        spec_repr(n / 10).push((0x30 + n % 10) as u8)
    }
}

/// The rendering of `n` is a non-empty digit string with value `n` and no
/// leading zero (unless `n` is zero itself).
pub proof fn lemma_repr_digits(n: nat)
    ensures
        spec_repr(n).len() >= 1,
        all_digits(spec_repr(n)),
        dec_value(spec_repr(n)) == n,
        n == 0 ==> spec_repr(n) == seq![0x30u8],
        n >= 1 ==> spec_repr(n)[0] != 0x30,
    decreases n,
{
    if n < 10 {
        assert(spec_repr(n) =~= seq![(0x30 + n) as u8]);
        assert(dec_value(seq![(0x30 + n) as u8].drop_last()) == 0) by {
            assert(seq![(0x30 + n) as u8].drop_last() =~= Seq::<u8>::empty());
        }
    } else {
        lemma_repr_digits(n / 10);
        let r = spec_repr(n / 10);
        let d = (0x30 + n % 10) as u8;
        assert(r.push(d).drop_last() =~= r);
        assert(r.push(d).last() == d);
        assert(dec_value(r.push(d)) == (n / 10) * 10 + n % 10);
        assert((n / 10) * 10 + n % 10 == n) by {
            vstd::arithmetic::div_mod::lemma_fundamental_div_mod(n as int, 10);
        }
        assert(all_digits(r.push(d))) by {
            assert(forall|i: int| 0 <= i < r.len() ==> r.push(d)[i] == r[i]);
        }
        assert(r.push(d)[0] == r[0]);
    }
}

/// The rendering of any `u64` parses back to exactly that number.
pub proof fn lemma_repr_parses(n: u64)
    ensures
        spec_parse_u64(spec_repr(n as nat)) == Some(n),
{
    lemma_repr_digits(n as nat);
    let r = spec_repr(n as nat);
    assert(is_digit(r[0]));
    assert(r[0] != 0x2b);
}

/// Appends the decimal rendering of `n`.
pub fn push_decimal(n: u64, out: &mut Vec<u8>)
    ensures
        final(out)@ == old(out)@ + spec_repr(n as nat),
    decreases n,
{
    if n < 10 {
        out.push(0x30u8 + (n as u8));
        assert(out@ =~= old(out)@ + spec_repr(n as nat));
    } else {
        push_decimal(n / 10, out);
        out.push(0x30u8 + ((n % 10) as u8));
        assert(out@ =~= old(out)@ + spec_repr(n as nat));
    }
}

/// The `.txt` suffix of every frame file.
pub open spec fn txt_suffix() -> Seq<u8> {
    seq![0x2eu8, 0x74u8, 0x78u8, 0x74u8]
}

/// The stem of a name ending in `.txt`; `None` for any other name,
/// including a bare `.txt`.
pub open spec fn spec_txt_stem(s: Seq<u8>) -> Option<Seq<u8>> {
    if s.len() >= 5 && s.skip(s.len() - 4) == txt_suffix() {
        Some(s.take(s.len() - 4))
    } else {
        None
    }
}

/// The frame number encoded by a file name: the value of its stem if the
/// name is `<digits>.txt`, and nothing otherwise.
pub open spec fn spec_frame_number(s: Seq<u8>) -> Option<u64> {
    match spec_txt_stem(s) {
        Some(stem) => spec_parse_u64(stem),
        None => None,
    }
}

/// Extracts the frame number from a file name, if it has the canonical
/// `<number>.txt` shape.
pub fn frame_number_of_name(name: &Vec<u8>) -> (r: Option<u64>)
    ensures
        r == spec_frame_number(name@),
{
    let l = name.len();
    if l < 5 {
        return None;
    }
    if name[l - 4] != 0x2e || name[l - 3] != 0x74 || name[l - 2] != 0x78 || name[l - 1] != 0x74 {
        proof {
            assert(name@.skip(l - 4).len() == 4);
            assert(name@.skip(l - 4)[0] == name@[l - 4]);
            assert(name@.skip(l - 4)[1] == name@[l - 3]);
            assert(name@.skip(l - 4)[2] == name@[l - 2]);
            assert(name@.skip(l - 4)[3] == name@[l - 1]);
            assert(name@.skip(l - 4) != txt_suffix());
        }
        return None;
    }
    proof {
        assert(name@.skip(l - 4) =~= txt_suffix());
    }
    let mut stem: Vec<u8> = Vec::new();
    let mut i: usize = 0;
    while i < l - 4
        invariant
            0 <= i <= l - 4,
            l == name@.len(),
            l >= 5,
            stem@ == name@.take(i as int),
        decreases l - 4 - i,
    {
        stem.push(name[i]);
        proof {
            assert(stem@ =~= name@.take(i + 1));
        }
        i = i + 1;
    }
    parse_u64(&stem)
}

} // verus!
