//! ASCII decimal numbers: formatting with zero padding and strict parsing
//! with the rules of Rust's unsigned `from_str`.

use vstd::prelude::*;

verus! {

/// `b` is an ASCII digit `'0'..='9'`.
pub open spec fn is_digit(b: u8) -> bool {
    48 <= b <= 57
}

/// Every byte of `s` is an ASCII digit.
pub open spec fn all_digits(s: Seq<u8>) -> bool {
    forall|i: int| 0 <= i < s.len() ==> is_digit(#[trigger] s[i])
}

/// `10^e`.
pub open spec fn pow10(e: nat) -> nat
    decreases e,
{
    if e == 0 {
        1
    } else {
        10 * pow10((e - 1) as nat)
    }
}

/// The shortest decimal representation of `n` ("0" for zero).
pub open spec fn decimal_digits(n: nat) -> Seq<u8>
    decreases n,
{
    if n < 10 {
        seq![(48 + n) as u8]
    } else {
        decimal_digits(n / 10).push((48 + n % 10) as u8)
    }
}

/// `digits` preceded by as many ASCII zeros as needed to reach `width` bytes.
pub open spec fn zero_padded(digits: Seq<u8>, width: nat) -> Seq<u8> {
    if digits.len() < width {
        Seq::new((width - digits.len()) as nat, |i: int| 48u8) + digits
    } else {
        digits
    }
}

/// The decimal representation of `n`, zero-padded to at least `width` bytes
/// (what `format!("{:0width$}", n)` prints).
pub open spec fn padded_decimal(n: nat, width: nat) -> Seq<u8> {
    zero_padded(decimal_digits(n), width)
}

/// The number that the ASCII digits `s` denote.
pub open spec fn decimal_value(s: Seq<u8>) -> nat
    decreases s.len(),
{
    if s.len() == 0 {
        0
    } else {
        decimal_value(s.drop_last()) * 10 + (s.last() - 48) as nat
    }
}

/// The digits of an unsigned literal: `s` without one optional leading `'+'`.
pub open spec fn unsigned_literal_digits(s: Seq<u8>) -> Seq<u8> {
    if s.len() > 0 && s[0] == 43u8 {
        s.drop_first()
    } else {
        s
    }
}

/// The result of parsing `s` as an unsigned integer no larger than `max`,
/// as Rust's `from_str` for unsigned types does it: an optional `'+'`,
/// then at least one ASCII digit and nothing else, and a value in range.
pub open spec fn parse_unsigned(s: Seq<u8>, max: nat) -> Option<nat> {
    let d = unsigned_literal_digits(s);
    if d.len() > 0 && all_digits(d) && decimal_value(d) <= max {
        Some(decimal_value(d))
    } else {
        None
    }
}

pub proof fn lemma_decimal_digits(n: nat)
    ensures
        all_digits(decimal_digits(n)),
        1 <= decimal_digits(n).len(),
        decimal_value(decimal_digits(n)) == n,
        decimal_digits(n)[0] != 48u8 || n == 0,
    decreases n,
{
    if n < 10 {
        let s = decimal_digits(n);
        assert(s.drop_last() =~= Seq::<u8>::empty());
        assert(decimal_value(s.drop_last()) == 0);
    } else {
        lemma_decimal_digits(n / 10);
        let s = decimal_digits(n);
        assert(s.drop_last() =~= decimal_digits(n / 10));
        assert(n % 10 < 10);
        assert(s.last() == (48 + n % 10) as u8);
        assert((s.last() - 48) as nat == n % 10);
        assert((n / 10) * 10 + n % 10 == n);
    }
}

/// The number of digits of `n` is at most `w` exactly when `n < 10^w`.
pub proof fn lemma_decimal_digits_len(n: nat, w: nat)
    ensures
        decimal_digits(n).len() <= w <==> (n < pow10(w) && w >= 1),
    decreases n, w,
{
    if n < 10 {
        if w >= 1 {
            lemma_pow10_ge(w, 1);
        }
    } else if w == 0 {
    } else {
        lemma_decimal_digits_len(n / 10, (w - 1) as nat);
        assert(pow10(w) == 10 * pow10((w - 1) as nat));
        if w == 1 {
            assert(pow10(0) == 1);
        }
    }
}

pub proof fn lemma_pow10_ge(w: nat, k: nat)
    requires
        k <= w,
    ensures
        pow10(k) <= pow10(w),
        pow10(w) >= 1,
    decreases w,
{
    if w > 0 {
        if k < w {
            lemma_pow10_ge((w - 1) as nat, k);
        } else {
            lemma_pow10_ge((w - 1) as nat, 0);
        }
    }
}

/// Leading zeros do not change the value of a digit string.
pub proof fn lemma_leading_zeros(k: nat, s: Seq<u8>)
    ensures
        decimal_value(Seq::new(k, |i: int| 48u8) + s) == decimal_value(s),
    decreases s.len(), k,
{
    let z = Seq::new(k, |i: int| 48u8);
    if s.len() == 0 {
        assert(z + s =~= z);
        if k > 0 {
            let z1 = Seq::new((k - 1) as nat, |i: int| 48u8);
            assert(z.drop_last() =~= z1 + Seq::<u8>::empty());
            lemma_leading_zeros((k - 1) as nat, Seq::<u8>::empty());
            assert(z1 + Seq::<u8>::empty() =~= z1);
        }
    } else {
        assert((z + s).drop_last() =~= z + s.drop_last());
        lemma_leading_zeros(k, s.drop_last());
    }
}

/// Parsing the padded decimal representation of `n` gives `n` back.
pub proof fn lemma_parse_padded_decimal(n: nat, width: nat, max: nat)
    requires
        n <= max,
    ensures
        parse_unsigned(padded_decimal(n, width), max) == Some(n),
        all_digits(padded_decimal(n, width)),
        padded_decimal(n, width).len() >= 1,
        padded_decimal(n, width).len() >= width,
{
    lemma_decimal_digits(n);
    let d = decimal_digits(n);
    let p = padded_decimal(n, width);
    if d.len() < width {
        let k = (width - d.len()) as nat;
        lemma_leading_zeros(k, d);
        assert forall|i: int| 0 <= i < p.len() implies is_digit(#[trigger] p[i]) by {
            if i >= k {
                assert(p[i] == d[i - k]);
            }
        }
    }
    assert(p[0] == 48u8 || p[0] == d[0]);
    assert(p[0] != 43u8);
    assert(unsigned_literal_digits(p) == p);
}

/// A prefix of a digit string never denotes a larger number.
pub proof fn lemma_prefix_value_le(s: Seq<u8>, j: int)
    requires
        all_digits(s),
        0 <= j <= s.len(),
    ensures
        decimal_value(s.take(j)) <= decimal_value(s),
    decreases s.len(),
{
    if j < s.len() {
        assert(s.drop_last().take(j) =~= s.take(j));
        lemma_prefix_value_le(s.drop_last(), j);
    } else {
        assert(s.take(j) =~= s);
    }
}

proof fn lemma_pow10_39()
    ensures
        pow10(39) > u128::MAX,
{
    reveal_with_fuel(pow10, 40);
}

/// Appends the shortest decimal representation of `n`.
pub fn push_decimal(out: &mut Vec<u8>, n: u128)
    ensures
        final(out)@ == old(out)@ + decimal_digits(n as nat),
    decreases n,
{
    if n >= 10 {
        push_decimal(out, n / 10);
    }
    let d: u8 = (n % 10) as u8;
    out.push(48u8 + d);
    proof {
        assert(old(out)@ + decimal_digits(n as nat) =~= (old(out)@ + (if n >= 10 {
            decimal_digits((n / 10) as nat)
        } else {
            Seq::empty()
        })).push((48 + n % 10) as u8));
    }
}

/// The number of digits in the shortest decimal representation of `n`.
pub fn decimal_len(n: u128) -> (len: usize)
    ensures
        len == decimal_digits(n as nat).len(),
        1 <= len <= 39,
    decreases n,
{
    proof {
        lemma_decimal_digits_len(n as nat, 39);
        lemma_pow10_39();
    }
    if n < 10 {
        1
    } else {
        decimal_len(n / 10) + 1
    }
}

/// Appends the decimal representation of `n`, left-padded with zeros to at
/// least `width` bytes.
pub fn push_padded_decimal(out: &mut Vec<u8>, n: u128, width: usize)
    ensures
        final(out)@ == old(out)@ + padded_decimal(n as nat, width as nat),
{
    let len = decimal_len(n);
    let mut i = len;
    while i < width
        invariant
            len <= i <= width || (width <= len && i == len),
            out@ == old(out)@ + Seq::new((i - len) as nat, |k: int| 48u8),
        decreases width - i,
    {
        out.push(48u8);
        i = i + 1;
        proof {
            assert(Seq::new((i - len) as nat, |k: int| 48u8) =~= Seq::new(
                (i - 1 - len) as nat,
                |k: int| 48u8,
            ).push(48u8));
        }
    }
    let ghost zeros = out@;
    push_decimal(out, n);
    proof {
        if len >= width {
            assert(Seq::new((i - len) as nat, |k: int| 48u8) =~= Seq::<u8>::empty());
        }
        assert(out@ =~= old(out)@ + padded_decimal(n as nat, width as nat));
    }
}

/// Parses `s` as an unsigned integer no larger than `max`, with the rules of
/// Rust's unsigned `from_str`.
pub fn parse_unsigned_bounded(s: &[u8], max: u64) -> (r: Option<u64>)
    ensures
        match r {
            Some(v) => parse_unsigned(s@, max as nat) == Some(v as nat),
            None => parse_unsigned(s@, max as nat) is None,
        },
{
    let len = s.len();
    let start: usize = if len > 0 && s[0] == 43u8 {
        1
    } else {
        0
    };
    let ghost d = unsigned_literal_digits(s@);
    assert(d =~= s@.subrange(start as int, len as int));
    if start == len {
        return None;
    }
    let mut acc: u64 = 0;
    let mut i = start;
    while i < len
        invariant
            start <= i <= len,
            len == s@.len(),
            d == s@.subrange(start as int, len as int),
            d == unsigned_literal_digits(s@),
            all_digits(d.take(i - start)),
            acc as nat == decimal_value(d.take(i - start)),
            acc <= max,
        decreases len - i,
    {
        let b = s[i];
        if b < 48u8 || b > 57u8 {
            assert(d[i - start] == b);
            assert(!is_digit(d[i - start]));
            assert(!all_digits(d));
            return None;
        }
        assert(d.take(i + 1 - start).drop_last() =~= d.take(i - start));
        assert(d.take(i + 1 - start).last() == b);
        assert(all_digits(d.take(i + 1 - start))) by {
            assert forall|k: int| 0 <= k < i + 1 - start implies is_digit(
                #[trigger] d.take(i + 1 - start)[k],
            ) by {
                if k < i - start {
                    assert(d.take(i + 1 - start)[k] == d.take(i - start)[k]);
                }
            }
        }
        let digit = (b - 48u8) as u64;
        let grown = acc.checked_mul(10);
        let next = match grown {
            Some(g) => g.checked_add(digit),
            None => None,
        };
        match next {
            Some(v) if v <= max => {
                acc = v;
            },
            _ => {
                proof {
                    let p = d.take(i + 1 - start);
                    assert(p.drop_last() =~= d.take(i - start));
                    assert(decimal_value(p) == acc * 10 + digit);
                    assert(decimal_value(p) > max);
                    if all_digits(d) {
                        lemma_prefix_value_le(d, i + 1 - start);
                    }
                }
                return None;
            },
        }
        i = i + 1;
    }
    assert(d.take(len - start) =~= d);
    Some(acc)
}

} // verus!
