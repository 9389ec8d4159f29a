//! Decimal ASCII text for integer values, and the whitespace token discipline
//! of body lines: rendering, token grammar, parsing, and splitting a line into
//! tokens.

use vstd::arithmetic::div_mod::lemma_fundamental_div_mod;
use vstd::prelude::*;

verus! {

/// ASCII decimal digits of the non-negative value `n`, most significant first,
/// with no sign and no leading zero (except for `n == 0` itself).
pub open spec fn dec_nat(n: int) -> Seq<u8>
    decreases n,
{
    if n <= 0 {
        seq![48u8]
    } else if n < 10 {
        seq![(48 + n) as u8]
    } else {
        dec_nat(n / 10) + seq![(48 + n % 10) as u8]
    }
}

/// ASCII decimal rendering of the integer `n`: a leading `-` for negative
/// values, then the digits of its magnitude.
pub open spec fn dec_int(n: int) -> Seq<u8> {
    if n < 0 {
        seq![45u8] + dec_nat(-n)
    } else {
        dec_nat(n)
    }
}

/// Whether `b` is an ASCII whitespace byte: space, tab, line feed, form feed
/// or carriage return.
pub open spec fn is_ws(b: u8) -> bool {
    b == 32 || b == 9 || b == 10 || b == 12 || b == 13
}

pub open spec fn is_digit(b: u8) -> bool {
    48 <= b <= 57
}

/// The value of a pure digit string, most significant digit first.
pub open spec fn parse_nat(t: Seq<u8>) -> int
    decreases t.len(),
{
    if t.len() == 0 {
        0
    } else {
        parse_nat(t.drop_last()) * 10 + (t.last() - 48)
    }
}

/// Whether `t` is non-empty and made of digits alone.
pub open spec fn all_digits(t: Seq<u8>) -> bool {
    t.len() > 0 && forall|i: int| 0 <= i < t.len() ==> is_digit(#[trigger] t[i])
}

/// The digit part of an integer token: what follows the optional sign.
pub open spec fn int_tok_digits(t: Seq<u8>) -> Seq<u8> {
    if t.len() > 0 && (t[0] == 43 || t[0] == 45) {
        t.drop_first()
    } else {
        t
    }
}

/// Whether `t` is a well-formed integer token: an optional single `+` or `-`
/// sign followed by at least one digit, and nothing else.
pub open spec fn is_int_token(t: Seq<u8>) -> bool {
    all_digits(int_tok_digits(t))
}

/// The integer value of a well-formed integer token.
pub open spec fn parse_int_tok(t: Seq<u8>) -> int {
    if t.len() > 0 && t[0] == 45 {
        -parse_nat(t.drop_first())
    } else if t.len() > 0 && t[0] == 43 {
        parse_nat(t.drop_first())
    } else {
        parse_nat(t)
    }
}

pub proof fn lemma_parse_nat_nonneg(t: Seq<u8>)
    requires
        forall|i: int| 0 <= i < t.len() ==> is_digit(#[trigger] t[i]),
    ensures
        parse_nat(t) >= 0,
    decreases t.len(),
{
    if t.len() > 0 {
        lemma_parse_nat_nonneg(t.drop_last());
    }
}

/// A digit string's value only grows as more digits are appended.
pub proof fn lemma_parse_nat_prefix_le(t: Seq<u8>, k: int)
    requires
        forall|i: int| 0 <= i < t.len() ==> is_digit(#[trigger] t[i]),
        0 <= k <= t.len(),
    ensures
        parse_nat(t.take(k)) <= parse_nat(t),
    decreases t.len() - k,
{
    if k < t.len() {
        assert(t.take(k + 1).drop_last() =~= t.take(k));
        assert(forall|i: int| 0 <= i < t.take(k + 1).len() ==> is_digit(#[trigger] t.take(k + 1)[i]));
        lemma_parse_nat_nonneg(t.take(k));
        lemma_parse_nat_prefix_le(t, k + 1);
    } else {
        assert(t.take(k) =~= t);
    }
}

/// Every byte of `dec_nat(n)` is a digit, and the string is never empty.
pub proof fn lemma_dec_nat_digits(n: int)
    ensures
        dec_nat(n).len() > 0,
        forall|i: int| 0 <= i < dec_nat(n).len() ==> is_digit(#[trigger] dec_nat(n)[i]),
    decreases n,
{
    if n >= 10 {
        lemma_dec_nat_digits(n / 10);
    }
}

/// Parsing inverts rendering for non-negative values.
pub proof fn lemma_parse_dec_nat(n: int)
    requires
        n >= 0,
    ensures
        parse_nat(dec_nat(n)) == n,
    decreases n,
{
    if n >= 10 {
        lemma_parse_dec_nat(n / 10);
        lemma_fundamental_div_mod(n, 10);
        assert(dec_nat(n) == dec_nat(n / 10) + seq![(48 + n % 10) as u8]);
        assert(dec_nat(n).last() == (48 + n % 10) as u8);
        assert(dec_nat(n).drop_last() =~= dec_nat(n / 10));
        assert(parse_nat(dec_nat(n)) == parse_nat(dec_nat(n / 10)) * 10 + (48 + n % 10) - 48);
    } else {
        assert(dec_nat(n).drop_last() =~= Seq::<u8>::empty());
        assert(parse_nat(dec_nat(n)) == parse_nat(Seq::<u8>::empty()) * 10 + (dec_nat(n).last()
            - 48));
    }
}

/// Parsing inverts rendering for every integer: the law behind lossless
/// ASCII round trips of integer elements.
pub proof fn lemma_parse_dec_int(n: int)
    ensures
        is_int_token(dec_int(n)),
        parse_int_tok(dec_int(n)) == n,
{
    lemma_dec_nat_digits(if n < 0 { -n } else { n });
    if n < 0 {
        assert((seq![45u8] + dec_nat(-n)).drop_first() =~= dec_nat(-n));
        lemma_parse_dec_nat(-n);
        assert(dec_int(n)[0] == 45);
    } else {
        lemma_parse_dec_nat(n);
        assert(!is_digit(43u8) && !is_digit(45u8));
        assert(dec_nat(n)[0] != 45 && dec_nat(n)[0] != 43);
    }
}

/// No byte of an integer rendering is whitespace.
pub proof fn lemma_dec_int_no_ws(n: int)
    ensures
        dec_int(n).len() > 0,
        forall|i: int| 0 <= i < dec_int(n).len() ==> !is_ws(#[trigger] dec_int(n)[i]),
{
    lemma_dec_nat_digits(if n < 0 { -n } else { n });
}

/// A smaller value never renders to more digits.
pub proof fn lemma_dec_nat_len_mono(m: int, n: int)
    requires
        0 <= m <= n,
    ensures
        dec_nat(m).len() <= dec_nat(n).len(),
    decreases n,
{
    if m >= 10 {
        lemma_dec_nat_len_mono(m / 10, n / 10);
    } else if n >= 10 {
        lemma_dec_nat_digits(n / 10);
    }
}

/// The length of the leading whitespace-free run of `s`: where the token
/// starting at the front of `s` ends.
pub open spec fn tok_len(s: Seq<u8>) -> int
    decreases s.len(),
{
    if s.len() == 0 || is_ws(s[0]) {
        0
    } else {
        1 + tok_len(s.drop_first())
    }
}

pub proof fn lemma_tok_len_bounds(s: Seq<u8>)
    ensures
        0 <= tok_len(s) <= s.len(),
    decreases s.len(),
{
    if s.len() > 0 && !is_ws(s[0]) {
        lemma_tok_len_bounds(s.drop_first());
    }
}

/// The whitespace-separated tokens of `s`, in order: the maximal runs of
/// non-whitespace bytes.
pub open spec fn split_ws(s: Seq<u8>) -> Seq<Seq<u8>>
    decreases s.len(),
    via split_ws_decreases
{
    if s.len() == 0 {
        Seq::empty()
    } else if is_ws(s[0]) {
        split_ws(s.drop_first())
    } else {
        seq![s.take(tok_len(s))] + split_ws(s.skip(tok_len(s)))
    }
}

#[via_fn]
proof fn split_ws_decreases(s: Seq<u8>) {
    if s.len() > 0 && !is_ws(s[0]) {
        lemma_tok_len_bounds(s.drop_first());
    }
}

/// Splits `line` into its whitespace-separated tokens.
pub fn split_tokens(line: &[u8]) -> (r: Vec<Vec<u8>>)
    ensures
        r@.len() == split_ws(line@).len(),
        forall|i: int| 0 <= i < r@.len() ==> #[trigger] r@[i]@ == split_ws(line@)[i],
{
    let s = line;
    let mut toks: Vec<Vec<u8>> = Vec::new();
    let mut i: usize = 0;
    proof {
        assert(s@.skip(0) =~= s@);
        assert(toks@.map_values(|t: Vec<u8>| t@) + split_ws(s@) =~= split_ws(s@));
    }
    while i < s.len()
        invariant
            i <= s@.len(),
            split_ws(s@) == toks@.map_values(|t: Vec<u8>| t@) + split_ws(s@.skip(i as int)),
        decreases s@.len() - i,
    {
        if is_ws_byte(s[i]) {
            proof {
                assert(s@.skip(i as int).drop_first() =~= s@.skip(i as int + 1));
            }
            i = i + 1;
        } else {
            let start: usize = i;
            let mut tok: Vec<u8> = Vec::new();
            let mut j: usize = i;
            while j < s.len() && !is_ws_byte(s[j])
                invariant
                    i <= j <= s@.len(),
                    tok@ =~= s@.subrange(i as int, j as int),
                    tok_len(s@.skip(i as int)) == (j - i) + tok_len(s@.skip(j as int)),
                decreases s@.len() - j,
            {
                proof {
                    assert(s@.skip(j as int).drop_first() =~= s@.skip(j as int + 1));
                    assert(s@.skip(j as int)[0] == s@[j as int]);
                }
                tok.push(s[j]);
                proof {
                    assert(tok@ =~= s@.subrange(i as int, j as int + 1));
                }
                j = j + 1;
            }
            proof {
                assert(tok_len(s@.skip(j as int)) == 0);
                assert(tok_len(s@.skip(i as int)) == j - i);
                assert(s@.skip(i as int).take(j - i) =~= s@.subrange(i as int, j as int));
                assert(s@.skip(i as int).skip(j - i) =~= s@.skip(j as int));
                assert(split_ws(s@.skip(i as int)) == seq![s@.subrange(i as int, j as int)]
                    + split_ws(s@.skip(j as int)));
            }
            let ghost toks0: Seq<Vec<u8>> = toks@;
            toks.push(tok);
            proof {
                assert(toks@.map_values(|t: Vec<u8>| t@) =~= toks0.map_values(|t: Vec<u8>| t@)
                    + seq![s@.subrange(i as int, j as int)]);
                assert(toks@.map_values(|t: Vec<u8>| t@) + split_ws(s@.skip(j as int)) =~= (
                toks0.map_values(|t: Vec<u8>| t@) + seq![s@.subrange(i as int, j as int)])
                    + split_ws(s@.skip(j as int)));
            }
            i = j;
        }
    }
    proof {
        assert(s@.skip(i as int) =~= Seq::<u8>::empty());
        assert(split_ws(s@.skip(i as int)) =~= Seq::<Seq<u8>>::empty());
        assert(split_ws(s@) =~= toks@.map_values(|t: Vec<u8>| t@));
        assert(forall|k: int|
            0 <= k < toks@.len() ==> #[trigger] toks@[k]@ == toks@.map_values(|t: Vec<u8>| t@)[k]);
    }
    toks
}

/// Whether `b` is an ASCII whitespace byte.
pub fn is_ws_byte(b: u8) -> (r: bool)
    ensures
        r == is_ws(b),
{
    b == 32 || b == 9 || b == 10 || b == 12 || b == 13
}

/// Parses `tok` as a decimal integer in `[lo, hi]`. Yields the value exactly
/// when the token is well formed and its value lies in the range.
pub fn parse_int_in(tok: &[u8], lo: i64, hi: i64) -> (r: Option<i64>)
    requires
        -0x1_0000_0000 <= lo <= 0,
        0 <= hi <= 0x1_0000_0000,
    ensures
        r is Some <==> is_int_token(tok@) && lo <= parse_int_tok(tok@) <= hi,
        r matches Some(v) ==> v == parse_int_tok(tok@),
{
    if tok.len() == 0 {
        return None;
    }
    let neg: bool = tok[0] == 45;
    let signed: bool = tok[0] == 45 || tok[0] == 43;
    let start: usize = if signed {
        1
    } else {
        0
    };
    let ghost digits: Seq<u8> = if signed {
        tok@.drop_first()
    } else {
        tok@
    };
    if start >= tok.len() {
        return None;
    }
    let limit: i64 = if neg {
        -lo
    } else {
        hi
    };
    let mut acc: i64 = 0;
    let mut i: usize = start;
    while i < tok.len()
        invariant
            tok@.len() > 0,
            start <= i <= tok@.len(),
            start < tok@.len(),
            signed == (tok@[0] == 45 || tok@[0] == 43),
            neg == (tok@[0] == 45),
            start == (if signed {
                1int
            } else {
                0int
            }),
            digits == (if signed {
                tok@.drop_first()
            } else {
                tok@
            }),
            digits.len() == tok@.len() - start,
            limit == (if neg {
                -lo
            } else {
                hi as int
            }),
            -0x1_0000_0000 <= lo <= 0,
            0 <= hi <= 0x1_0000_0000,
            forall|k: int| 0 <= k < i - start ==> is_digit(#[trigger] digits[k]),
            acc == parse_nat(digits.take(i - start)),
            0 <= acc <= limit,
        decreases tok@.len() - i,
    {
        let b: u8 = tok[i];
        proof {
            assert(digits[i - start] == tok@[i as int]);
        }
        if b < 48 || b > 57 {
            proof {
                assert(int_tok_digits(tok@) == digits);
                assert(!is_digit(digits[i - start]));
                assert(!all_digits(digits));
            }
            return None;
        }
        proof {
            assert(digits.take(i - start + 1).drop_last() =~= digits.take(i - start));
            assert(digits.take(i - start + 1).last() == digits[i - start]);
        }
        acc = acc * 10 + (b - 48) as i64;
        i = i + 1;
        if acc > limit {
            proof {
                assert(int_tok_digits(tok@) == digits);
                if is_int_token(tok@) {
                    assert(all_digits(digits));
                    lemma_parse_nat_prefix_le(digits, i - start);
                    assert(parse_nat(digits) >= acc);
                }
            }
            return None;
        }
    }
    proof {
        assert(digits.take(i - start) =~= digits);
        assert(digits.len() > 0);
        assert(int_tok_digits(tok@) == digits);
        assert(all_digits(digits));
    }
    let v: i64 = if neg {
        -acc
    } else {
        acc
    };
    Some(v)
}

/// Renders the integer `n` as decimal ASCII text with an optional leading
/// minus sign.
pub fn dec_i64(n: i64) -> (r: Vec<u8>)
    requires
        n > i64::MIN,
    ensures
        r@ == dec_int(n as int),
{
    if n < 0 {
        let mut out: Vec<u8> = Vec::new();
        out.push(45);
        let mag: Vec<u8> = dec_u64((-n) as u64);
        let mut k: usize = 0;
        while k < mag.len()
            invariant
                k <= mag@.len(),
                out@ =~= seq![45u8] + mag@.take(k as int),
            decreases mag@.len() - k,
        {
            let b: u8 = mag[k];
            out.push(b);
            proof {
                assert(out@ =~= seq![45u8] + mag@.take(k as int + 1));
            }
            k = k + 1;
        }
        proof {
            assert(mag@.take(mag@.len() as int) =~= mag@);
        }
        out
    } else {
        dec_u64(n as u64)
    }
}

/// Renders the non-negative value `n` as decimal ASCII digits.
pub fn dec_u64(n: u64) -> (r: Vec<u8>)
    ensures
        r@ == dec_nat(n as int),
{
    let mut rev: Vec<u8> = Vec::new();
    let mut v: u64 = n;
    while v >= 10
        invariant
            dec_nat(n as int) =~= dec_nat(v as int) + rev@.reverse(),
        decreases v,
    {
        let d: u8 = 48 + (v % 10) as u8;
        let ghost r0: Seq<u8> = rev@;
        rev.push(d);
        proof {
            assert(dec_nat(v as int) + r0.reverse() =~= dec_nat((v / 10) as int) + rev@.reverse());
        }
        v = v / 10;
    }
    let d: u8 = 48 + (v % 10) as u8;
    let mut out: Vec<u8> = Vec::new();
    out.push(d);
    let mut i: usize = rev.len();
    while i > 0
        invariant
            i <= rev@.len(),
            out@.len() == 1 + rev@.len() - i,
            out@[0] == d,
            d == dec_nat(v as int)[0],
            dec_nat(v as int).len() == 1,
            dec_nat(n as int) =~= dec_nat(v as int) + rev@.reverse(),
            forall|j: int| 1 <= j < out@.len() ==> out@[j] == rev@[rev@.len() - j],
        decreases i,
    {
        i = i - 1;
        out.push(rev[i]);
    }
    proof {
        assert(out@ =~= dec_nat(v as int) + rev@.reverse());
    }
    out
}

} // verus!
