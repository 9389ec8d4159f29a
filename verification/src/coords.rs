//! Coordinate extraction: reads the first element of each of the first three
//! fields of a record as one signed integer, succeeding only when the
//! conversion is exact.
//!
//! Integer elements always convert exactly. A floating-point bit pattern
//! converts exactly when the value it denotes is an integer that the target
//! can hold; any other pattern, including the non-finite ones, yields no
//! value rather than a silently truncated one.

use crate::metas::ValueKind;
use crate::record::{DynRecord, Field};
use vstd::arithmetic::power2::{
    lemma2_to64, lemma2_to64_rest, lemma_pow2_adds, lemma_pow2_pos, lemma_pow2_strictly_increases,
    pow2,
};
use vstd::arithmetic::mul::lemma_mul_upper_bound;
use vstd::prelude::*;

verus! {

/// The integer a single-precision bit pattern denotes exactly, if any: the
/// significand scaled by the (possibly negative) power of two its exponent
/// names, negated under a sign bit. Non-finite patterns and values with a
/// fractional part denote no integer.
pub open spec fn single_exact_int(bits: u32) -> Option<int> {
    let neg = bits >= 0x8000_0000;
    let e = ((bits / 0x80_0000) % 0x100) as int;
    let m = (bits % 0x80_0000) as int;
    if e == 0 {
        if m == 0 {
            Some(0)
        } else {
            None
        }
    } else if e == 0xff {
        None
    } else {
        let mf = m + 0x80_0000;
        let mag = if e >= 150 {
            Some(mf * pow2((e - 150) as nat))
        } else if mf % (pow2((150 - e) as nat) as int) == 0 {
            Some(mf / (pow2((150 - e) as nat) as int))
        } else {
            None
        };
        match mag {
            Some(v) => Some(
                if neg {
                    -v
                } else {
                    v
                },
            ),
            None => None,
        }
    }
}

/// The integer a double-precision bit pattern denotes exactly, if any.
pub open spec fn double_exact_int(bits: u64) -> Option<int> {
    let neg = bits >= 0x8000_0000_0000_0000;
    let e = ((bits / 0x10_0000_0000_0000) % 0x800) as int;
    let m = (bits % 0x10_0000_0000_0000) as int;
    if e == 0 {
        if m == 0 {
            Some(0)
        } else {
            None
        }
    } else if e == 0x7ff {
        None
    } else {
        let mf = m + 0x10_0000_0000_0000;
        let mag = if e >= 1075 {
            Some(mf * pow2((e - 1075) as nat))
        } else if mf % (pow2((1075 - e) as nat) as int) == 0 {
            Some(mf / (pow2((1075 - e) as nat) as int))
        } else {
            None
        };
        match mag {
            Some(v) => Some(
                if neg {
                    -v
                } else {
                    v
                },
            ),
            None => None,
        }
    }
}

/// The exact `i64` reading of one element of kind `k` with value `v`:
/// integer elements convert as themselves, floating-point bit patterns only
/// when they denote an integer the target can hold.
pub open spec fn exact_i64(k: ValueKind, v: int) -> Option<int> {
    match k {
        ValueKind::F32 => clamp_i64(single_exact_int(v as u32)),
        ValueKind::F64 => clamp_i64(double_exact_int(v as u64)),
        _ => Some(v),
    }
}

/// Keeps an exact integer only when the target type can hold it.
pub open spec fn clamp_i64(v: Option<int>) -> Option<int> {
    match v {
        Some(n) => if -0x8000_0000_0000_0000 <= n <= 0x7fff_ffff_ffff_ffff {
            Some(n)
        } else {
            None
        },
        None => None,
    }
}

/// Computes `2^k`.
fn pow2_u64(k: u64) -> (r: u64)
    requires
        k <= 63,
    ensures
        r as nat == pow2(k as nat),
        r >= 1,
{
    proof {
        lemma2_to64();
        lemma2_to64_rest();
    }
    let mut r: u64 = 1;
    let mut i: u64 = 0;
    while i < k
        invariant
            i <= k <= 63,
            r as nat == pow2(i as nat),
        decreases k - i,
    {
        proof {
            lemma_pow2_adds(i as nat, 1);
            lemma2_to64();
            lemma_pow2_strictly_increases(i as nat + 1, 64);
            lemma2_to64_rest();
        }
        r = r * 2;
        i = i + 1;
    }
    r
}

/// Converts a single-precision bit pattern to the exact `i64` it denotes,
/// when there is one.
fn single_to_i64(bits: u32) -> (r: Option<i64>)
    ensures
        r is Some <==> exact_i64(ValueKind::F32, bits as int) is Some,
        r matches Some(v) ==> v as int == exact_i64(ValueKind::F32, bits as int).unwrap(),
{
    let neg: bool = bits >= 0x8000_0000;
    let e: u32 = (bits / 0x80_0000) % 0x100;
    let m: u32 = bits % 0x80_0000;
    if e == 0 {
        if m == 0 {
            return Some(0);
        }
        return None;
    }
    if e == 0xff {
        return None;
    }
    let mf: u64 = (m + 0x80_0000) as u64;
    proof {
        lemma2_to64();
        lemma2_to64_rest();
    }
    if e >= 150 {
        let shift: u32 = e - 150;
        if shift > 40 {
            proof {
                if shift > 41 {
                    lemma_pow2_strictly_increases(41, shift as nat);
                }
                lemma_pow2_pos(shift as nat);
                vstd::arithmetic::mul::lemma_mul_left_inequality(
                    0x80_0000,
                    0x2_0000_0000_0000,
                    pow2(shift as nat) as int,
                );
                vstd::arithmetic::mul::lemma_mul_inequality(
                    0x80_0000,
                    mf as int,
                    pow2(shift as nat) as int,
                );
            }
            return None;
        }
        let p: u64 = pow2_u64(shift as u64);
        proof {
            if shift as nat <= 40 {
                lemma_pow2_strictly_increases(shift as nat, 41);
            }
            lemma_mul_upper_bound(mf as int, 0xff_ffff, p as int, 0x100_0000_0000);
        }
        let mag: u64 = mf * p;
        if neg {
            if mag > 0x8000_0000_0000_0000 {
                return None;
            }
            if mag == 0x8000_0000_0000_0000 {
                return Some(i64::MIN);
            }
            return Some(-(mag as i64));
        }
        if mag > 0x7fff_ffff_ffff_ffff {
            return None;
        }
        Some(mag as i64)
    } else {
        let d: u32 = 150 - e;
        if d > 24 {
            proof {
                lemma_pow2_strictly_increases(24, d as nat);
                vstd::arithmetic::div_mod::lemma_small_mod(mf as nat, pow2(d as nat));
            }
            return None;
        }
        let q: u64 = pow2_u64(d as u64);
        proof {
            lemma_pow2_strictly_increases(d as nat, 25);
        }
        if mf % q == 0 {
            let mag: u64 = mf / q;
            if neg {
                return Some(-(mag as i64));
            }
            return Some(mag as i64);
        }
        None
    }
}

/// Converts a double-precision bit pattern to the exact `i64` it denotes,
/// when there is one.
fn double_to_i64(bits: u64) -> (r: Option<i64>)
    ensures
        r is Some <==> exact_i64(ValueKind::F64, bits as int) is Some,
        r matches Some(v) ==> v as int == exact_i64(ValueKind::F64, bits as int).unwrap(),
{
    let neg: bool = bits >= 0x8000_0000_0000_0000;
    let e: u64 = (bits / 0x10_0000_0000_0000) % 0x800;
    let m: u64 = bits % 0x10_0000_0000_0000;
    if e == 0 {
        if m == 0 {
            return Some(0);
        }
        return None;
    }
    if e == 0x7ff {
        return None;
    }
    let mf: u64 = m + 0x10_0000_0000_0000;
    proof {
        lemma2_to64();
        lemma2_to64_rest();
    }
    if e >= 1075 {
        let shift: u64 = e - 1075;
        if shift > 11 {
            proof {
                if shift > 12 {
                    lemma_pow2_strictly_increases(12, shift as nat);
                }
                lemma_pow2_pos(shift as nat);
                vstd::arithmetic::mul::lemma_mul_left_inequality(
                    0x10_0000_0000_0000,
                    0x1000,
                    pow2(shift as nat) as int,
                );
                vstd::arithmetic::mul::lemma_mul_inequality(
                    0x10_0000_0000_0000,
                    mf as int,
                    pow2(shift as nat) as int,
                );
            }
            return None;
        }
        let p: u64 = pow2_u64(shift);
        proof {
            if shift as nat <= 11 {
                lemma_pow2_strictly_increases(shift as nat, 12);
            }
            lemma_mul_upper_bound(mf as int, 0x1f_ffff_ffff_ffff, p as int, 0x800);
        }
        let mag: u64 = mf * p;
        if neg {
            if mag > 0x8000_0000_0000_0000 {
                return None;
            }
            if mag == 0x8000_0000_0000_0000 {
                return Some(i64::MIN);
            }
            return Some(-(mag as i64));
        }
        if mag > 0x7fff_ffff_ffff_ffff {
            return None;
        }
        Some(mag as i64)
    } else {
        let d: u64 = 1075 - e;
        if d > 53 {
            proof {
                lemma_pow2_strictly_increases(53, d as nat);
                vstd::arithmetic::div_mod::lemma_small_mod(mf as nat, pow2(d as nat));
            }
            return None;
        }
        let q: u64 = pow2_u64(d);
        proof {
            lemma_pow2_strictly_increases(d as nat, 54);
        }
        if mf % q == 0 {
            let mag: u64 = mf / q;
            if neg {
                return Some(-(mag as i64));
            }
            return Some(mag as i64);
        }
        None
    }
}

/// Converts the first element of one field to an exact `i64`.
fn first_elem_i64(f: &Field) -> (r: Option<i64>)
    requires
        f.vals().len() >= 1,
    ensures
        r is Some <==> exact_i64(f.spec_kind(), f.vals()[0]) is Some,
        r matches Some(v) ==> v as int == exact_i64(f.spec_kind(), f.vals()[0]).unwrap(),
{
    match f {
        Field::I8(vs) => Some(vs[0] as i64),
        Field::I16(vs) => Some(vs[0] as i64),
        Field::I32(vs) => Some(vs[0] as i64),
        Field::U8(vs) => Some(vs[0] as i64),
        Field::U16(vs) => Some(vs[0] as i64),
        Field::U32(vs) => Some(vs[0] as i64),
        Field::F32(vs) => single_to_i64(vs[0]),
        Field::F64(vs) => double_to_i64(vs[0]),
    }
}

impl DynRecord {
    /// Reads the record's coordinates: the first element of each of the
    /// first three fields, which must share one kind, converted exactly to
    /// `i64`. Yields no value as soon as one conversion is not exact.
    pub fn xyz(&self) -> (r: Option<[i64; 3]>)
        requires
            self.0@.len() >= 3,
            self.0@[0].spec_kind() == self.0@[1].spec_kind(),
            self.0@[1].spec_kind() == self.0@[2].spec_kind(),
            self.0@[0].vals().len() >= 1,
            self.0@[1].vals().len() >= 1,
            self.0@[2].vals().len() >= 1,
        ensures
            r is Some <==> exact_i64(self.0@[0].spec_kind(), self.0@[0].vals()[0]) is Some
                && exact_i64(self.0@[0].spec_kind(), self.0@[1].vals()[0]) is Some && exact_i64(
                self.0@[0].spec_kind(),
                self.0@[2].vals()[0],
            ) is Some,
            r matches Some(a) ==> a[0] as int == exact_i64(
                self.0@[0].spec_kind(),
                self.0@[0].vals()[0],
            ).unwrap() && a[1] as int == exact_i64(
                self.0@[0].spec_kind(),
                self.0@[1].vals()[0],
            ).unwrap() && a[2] as int == exact_i64(
                self.0@[0].spec_kind(),
                self.0@[2].vals()[0],
            ).unwrap(),
    {
        let x = first_elem_i64(&self.0[0]);
        let y = first_elem_i64(&self.0[1]);
        let z = first_elem_i64(&self.0[2]);
        match (x, y, z) {
            (Some(xv), Some(yv), Some(zv)) => Some([xv, yv, zv]),
            _ => None,
        }
    }
}

} // verus!
