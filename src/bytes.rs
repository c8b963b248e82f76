//! Big-endian integer fields read out of byte slices.
use vstd::prelude::*;

verus! {

/// The unsigned 16-bit big-endian value stored at `s[i..i + 2]`.
pub open spec fn spec_u16(s: Seq<u8>, i: int) -> int {
    s[i] as int * 256 + s[i + 1] as int
}

/// The unsigned 32-bit big-endian value stored at `s[i..i + 4]`.
pub open spec fn spec_u32(s: Seq<u8>, i: int) -> int {
    s[i] as int * 16777216 + s[i + 1] as int * 65536 + s[i + 2] as int * 256 + s[i + 3] as int
}

/// The signed (two's complement) 16-bit big-endian value stored at `s[i..i + 2]`.
pub open spec fn spec_i16(s: Seq<u8>, i: int) -> int {
    let u = spec_u16(s, i);
    if u >= 32768 { u - 65536 } else { u }
}

/// The signed (two's complement) 32-bit big-endian value stored at `s[i..i + 4]`.
pub open spec fn spec_i32(s: Seq<u8>, i: int) -> int {
    let u = spec_u32(s, i);
    if u >= 2147483648 { u - 4294967296 } else { u }
}

pub fn read_u16(b: &[u8], i: usize) -> (r: u16)
    requires
        i + 2 <= b@.len(),
    ensures
        r as int == spec_u16(b@, i as int),
{
    b[i] as u16 * 256 + b[i + 1] as u16
}

pub fn read_u32(b: &[u8], i: usize) -> (r: u32)
    requires
        i + 4 <= b@.len(),
    ensures
        r as int == spec_u32(b@, i as int),
{
    b[i] as u32 * 16777216 + b[i + 1] as u32 * 65536 + b[i + 2] as u32 * 256 + b[i + 3] as u32
}

pub fn read_i16(b: &[u8], i: usize) -> (r: i16)
    requires
        i + 2 <= b@.len(),
    ensures
        r as int == spec_i16(b@, i as int),
{
    let u = read_u16(b, i);
    if u >= 32768 {
        (u as i32 - 65536) as i16
    } else {
        u as i16
    }
}

pub fn read_i32(b: &[u8], i: usize) -> (r: i32)
    requires
        i + 4 <= b@.len(),
    ensures
        r as int == spec_i32(b@, i as int),
{
    let u = read_u32(b, i);
    if u >= 2147483648 {
        (u as i64 - 4294967296) as i32
    } else {
        u as i32
    }
}

/// A copy of `s[a..b]`.
pub fn copy_range(s: &[u8], a: usize, b: usize) -> (r: Vec<u8>)
    requires
        a <= b <= s@.len(),
    ensures
        r@ == s@.subrange(a as int, b as int),
{
    let mut out: Vec<u8> = Vec::new();
    let mut i: usize = a;
    while i < b
        invariant
            a <= i <= b <= s@.len(),
            out@ == s@.subrange(a as int, i as int),
        decreases b - i,
    {
        out.push(s[i]);
        i = i + 1;
        assert(out@ =~= s@.subrange(a as int, i as int));
    }
    out
}

} // verus!
