//! Decimal text for IEEE-754 bit patterns, delegated to the `rustc_apfloat`
//! soft-float library behind trusted wrappers.
//!
//! The rendering and the parse are functions of the bit pattern or of the
//! token alone, so each result is given a name that the callers' contracts
//! use; nothing else is assumed about the values.

use vstd::prelude::*;

verus! {

/// The decimal rendering `rustc_apfloat` gives the single-precision bit
/// pattern `bits`.
pub uninterp spec fn single_dec(bits: u32) -> Seq<u8>;

/// The decimal rendering `rustc_apfloat` gives the double-precision bit
/// pattern `bits`.
pub uninterp spec fn double_dec(bits: u64) -> Seq<u8>;

/// The single-precision bit pattern `rustc_apfloat` parses the token into,
/// or `None` when the token is not numeric.
pub uninterp spec fn single_of_dec(tok: Seq<u8>) -> Option<u32>;

/// The double-precision bit pattern `rustc_apfloat` parses the token into,
/// or `None` when the token is not numeric.
pub uninterp spec fn double_of_dec(tok: Seq<u8>) -> Option<u64>;

/// Whether a byte can appear in a rendered floating-point token. The
/// rendering uses digits, a sign, a decimal point, an exponent marker and
/// the letters of `Inf` and `NaN`; in particular it is never empty and never
/// holds whitespace.
pub open spec fn non_ws_token(t: Seq<u8>) -> bool {
    t.len() > 0 && forall|i: int| 0 <= i < t.len() ==> !crate::dec_text::is_ws(#[trigger] t[i])
}

/// Relies on `rustc_apfloat::ieee::Single`'s `Display`: the decimal rendering
/// of a single-precision value depends on its bit pattern alone, is never
/// empty, and holds no whitespace.
#[verifier::external_body]
pub fn render_single(bits: u32) -> (r: Vec<u8>)
    ensures
        r@ == single_dec(bits),
        non_ws_token(r@),
{
    let v = <rustc_apfloat::ieee::Single as rustc_apfloat::Float>::from_bits(bits as u128);
    v.to_string().into_bytes()
}

/// Relies on `rustc_apfloat::ieee::Double`'s `Display`: the decimal rendering
/// of a double-precision value depends on its bit pattern alone, is never
/// empty, and holds no whitespace.
#[verifier::external_body]
pub fn render_double(bits: u64) -> (r: Vec<u8>)
    ensures
        r@ == double_dec(bits),
        non_ws_token(r@),
{
    let v = <rustc_apfloat::ieee::Double as rustc_apfloat::Float>::from_bits(bits as u128);
    v.to_string().into_bytes()
}

/// Relies on `rustc_apfloat::ieee::Single`'s `FromStr`: the correctly rounded
/// single-precision value of a decimal token, as a function of the token
/// alone.
#[verifier::external_body]
pub fn parse_single(tok: &[u8]) -> (r: Option<u32>)
    ensures
        r == single_of_dec(tok@),
{
    let s = match core::str::from_utf8(tok) {
        Ok(s) => s,
        Err(_) => return None,
    };
    match s.parse::<rustc_apfloat::ieee::Single>() {
        Ok(v) => Some(rustc_apfloat::Float::to_bits(v) as u32),
        Err(_) => None,
    }
}

/// Relies on `rustc_apfloat::ieee::Double`'s `FromStr`: the correctly rounded
/// double-precision value of a decimal token, as a function of the token
/// alone.
#[verifier::external_body]
pub fn parse_double(tok: &[u8]) -> (r: Option<u64>)
    ensures
        r == double_of_dec(tok@),
{
    let s = match core::str::from_utf8(tok) {
        Ok(s) => s,
        Err(_) => return None,
    };
    match s.parse::<rustc_apfloat::ieee::Double>() {
        Ok(v) => Some(rustc_apfloat::Float::to_bits(v) as u64),
        Err(_) => None,
    }
}

} // verus!
