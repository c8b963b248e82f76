//! Channel planes: compression tags and their decoding into flat sample buffers.
use vstd::prelude::*;

use crate::bytes::{read_u16, spec_u16};

verus! {

/// How the bytes of a channel plane are stored.
#[derive(Debug, Clone, Copy, PartialEq, Eq)]
pub enum PsdChannelCompression {
    /// Samples stored as they are.
    RawData,
    /// PackBits run-length encoding, one run-length stream per scanline.
    RleCompressed,
    /// Deflate without prediction (recognized, not decoded).
    ZipWithoutPrediction,
    /// Deflate with prediction (recognized, not decoded).
    ZipWithPrediction,
}

/// Why a channel plane could not be decoded.
#[derive(Debug, Clone, Copy, PartialEq, Eq)]
pub enum ChannelError {
    /// The compression tag is not one of the four known ones.
    InvalidCompression,
    /// The plane is deflate-compressed, which is not supported.
    UnsupportedCompression,
    /// A raw plane does not hold exactly one sample per pixel.
    RawLengthMismatch,
    /// A run-length plane is truncated, a scanline does not decode to the
    /// scanline width, or bytes are left over after the last scanline.
    RleLengthMismatch,
}

/// The compression that a 16-bit tag stands for.
pub open spec fn compression_of(tag: int) -> Option<PsdChannelCompression> {
    if tag == 0 {
        Some(PsdChannelCompression::RawData)
    } else if tag == 1 {
        Some(PsdChannelCompression::RleCompressed)
    } else if tag == 2 {
        Some(PsdChannelCompression::ZipWithoutPrediction)
    } else if tag == 3 {
        Some(PsdChannelCompression::ZipWithPrediction)
    } else {
        None
    }
}

pub fn compression_from_tag(tag: u16) -> (r: Option<PsdChannelCompression>)
    ensures
        r == compression_of(tag as int),
{
    if tag == 0 {
        Some(PsdChannelCompression::RawData)
    } else if tag == 1 {
        Some(PsdChannelCompression::RleCompressed)
    } else if tag == 2 {
        Some(PsdChannelCompression::ZipWithoutPrediction)
    } else if tag == 3 {
        Some(PsdChannelCompression::ZipWithPrediction)
    } else {
        None
    }
}

/// `Some(a + r)` when `x` is `Some(r)`.
pub open spec fn glue(a: Seq<u8>, x: Option<Seq<u8>>) -> Option<Seq<u8>> {
    match x {
        Some(r) => Some(a + r),
        None => None,
    }
}

/// PackBits decoding of `s[pos..]`: a control byte `n` below 128 copies the
/// next `n + 1` bytes, 128 is skipped, and any other repeats the next byte
/// `257 - n` times. `None` when a run is cut short by the end of `s`.
pub open spec fn unpack_from(s: Seq<u8>, pos: int) -> Option<Seq<u8>>
    decreases s.len() - pos,
{
    if pos < 0 {
        None
    } else if pos >= s.len() {
        Some(Seq::empty())
    } else {
        let n = s[pos] as int;
        if n < 128 {
            if pos + 2 + n > s.len() {
                None
            } else {
                glue(s.subrange(pos + 1, pos + 2 + n), unpack_from(s, pos + 2 + n))
            }
        } else if n == 128 {
            unpack_from(s, pos + 1)
        } else {
            if pos + 2 > s.len() {
                None
            } else {
                glue(Seq::new((257 - n) as nat, |_k: int| s[pos + 1]), unpack_from(s, pos + 2))
            }
        }
    }
}

/// Scanlines `row..rows` of a run-length plane whose row byte counts stand in
/// a table at the front of `d` and whose next scanline starts at `off`: each
/// must decode to `width` bytes, and the last must end where `d` ends.
pub open spec fn rle_rows(d: Seq<u8>, rows: int, width: int, row: int, off: int) -> Option<Seq<u8>>
    decreases rows - row,
{
    if row >= rows {
        if off == d.len() {
            Some(Seq::empty())
        } else {
            None
        }
    } else if row < 0 {
        None
    } else {
        let c = spec_u16(d, 2 * row);
        if off < 0 || off + c > d.len() {
            None
        } else {
            match unpack_from(d.subrange(off, off + c), 0) {
                Some(v) => if v.len() == width {
                    glue(v, rle_rows(d, rows, width, row + 1, off + c))
                } else {
                    None
                },
                None => None,
            }
        }
    }
}

/// A run-length plane of `rows` scanlines of `width` bytes each: a table of
/// `rows` big-endian 16-bit byte counts, then the scanlines.
pub open spec fn decode_rle(d: Seq<u8>, rows: int, width: int) -> Option<Seq<u8>> {
    if 2 * rows > d.len() {
        None
    } else {
        rle_rows(d, rows, width, 0, 2 * rows)
    }
}

/// What a plane stored with compression `tag` decodes to, for a plane of
/// `rows` scanlines of `width` bytes each.
pub open spec fn decode_plane(tag: int, d: Seq<u8>, rows: int, width: int) -> Result<Seq<u8>, ChannelError> {
    if tag == 0 {
        if d.len() == rows * width {
            Ok(d)
        } else {
            Err(ChannelError::RawLengthMismatch)
        }
    } else if tag == 1 {
        match decode_rle(d, rows, width) {
            Some(v) => Ok(v),
            None => Err(ChannelError::RleLengthMismatch),
        }
    } else if tag == 2 || tag == 3 {
        Err(ChannelError::UnsupportedCompression)
    } else {
        Err(ChannelError::InvalidCompression)
    }
}

proof fn lemma_glue_assoc(a: Seq<u8>, b: Seq<u8>, x: Option<Seq<u8>>)
    ensures
        glue(a, glue(b, x)) == glue(a + b, x),
{
    if let Some(r) = x {
        assert(a + (b + r) =~= (a + b) + r);
    }
}

/// Every successful decoding of `rows` scanlines yields `rows * width` bytes.
proof fn lemma_rle_rows_len(d: Seq<u8>, rows: int, width: int, row: int, off: int)
    requires
        rle_rows(d, rows, width, row, off).is_some(),
        row <= rows,
    ensures
        rle_rows(d, rows, width, row, off).unwrap().len() == (rows - row) * width,
    decreases rows - row,
{
    if row < rows {
        let c = spec_u16(d, 2 * row);
        let v = unpack_from(d.subrange(off, off + c), 0).unwrap();
        lemma_rle_rows_len(d, rows, width, row + 1, off + c);
        assert(rle_rows(d, rows, width, row, off) == glue(v, rle_rows(d, rows, width, row + 1, off + c)));
        assert((rows - row) * width == width + (rows - (row + 1)) * width) by (nonlinear_arith);
    } else {
        assert((rows - row) * width == 0) by (nonlinear_arith)
            requires
                row == rows,
        ;
    }
}

/// Decodes the PackBits stream `src[start..end]`, appending to `out`.
fn unpack_span(src: &[u8], start: usize, end: usize, out: &mut Vec<u8>) -> (ok: bool)
    requires
        start <= end <= src@.len(),
    ensures
        ok == unpack_from(src@.subrange(start as int, end as int), 0).is_some(),
        ok ==> final(out)@ == old(out)@ + unpack_from(src@.subrange(start as int, end as int), 0).unwrap(),
{
    let ghost s = src@.subrange(start as int, end as int);
    let ghost out0 = out@;
    let ghost mut acc: Seq<u8> = Seq::empty();
    let mut i: usize = start;
    while i < end
        invariant
            start <= i <= end <= src@.len(),
            s == src@.subrange(start as int, end as int),
            out@ == out0 + acc,
            unpack_from(s, 0) == glue(acc, unpack_from(s, i - start)),
        decreases end - i,
    {
        let p: Ghost<int> = Ghost(i - start);
        let n = src[i];
        if n < 128 {
            let cnt: usize = n as usize + 1;
            if end - i < cnt + 1 {
                assert(unpack_from(s, p@) is None);
                return false;
            }
            let ghost lit = s.subrange(p@ + 1, p@ + 2 + n);
            let mut k: usize = 0;
            while k < cnt
                invariant
                    start <= i < end <= src@.len(),
                    cnt + 1 <= end - i,
                    k <= cnt,
                    out@ == out0 + acc + src@.subrange(i + 1, i + 1 + k),
                decreases cnt - k,
            {
                out.push(src[i + 1 + k]);
                k = k + 1;
                assert(src@.subrange(i + 1, i + 1 + k) =~= src@.subrange(i + 1, i + k) + seq![src@[i + k]]);
            }
            proof {
                assert(lit =~= src@.subrange(i + 1, i + 1 + cnt));
                lemma_glue_assoc(acc, lit, unpack_from(s, p@ + 2 + n));
                acc = acc + lit;
            }
            i = i + 1 + cnt;
        } else if n == 128 {
            i = i + 1;
        } else {
            if end - i < 2 {
                return false;
            }
            let b = src[i + 1];
            let cnt: usize = 257 - n as usize;
            let ghost run = Seq::new((257 - n) as nat, |_k: int| s[p@ + 1]);
            let mut k: usize = 0;
            while k < cnt
                invariant
                    k <= cnt,
                    cnt == 257 - n,
                    out@ == out0 + acc + Seq::new(k as nat, |_k: int| b),
                decreases cnt - k,
            {
                out.push(b);
                k = k + 1;
                assert(Seq::new(k as nat, |_k: int| b) =~= Seq::new((k - 1) as nat, |_k: int| b) + seq![b]);
            }
            proof {
                assert(run =~= Seq::new(cnt as nat, |_k: int| b));
                lemma_glue_assoc(acc, run, unpack_from(s, p@ + 2));
                acc = acc + run;
            }
            i = i + 2;
        }
    }
    proof {
        assert(acc + Seq::empty() =~= acc);
    }
    true
}

/// Decodes a run-length plane of `rows` scanlines of `width` bytes each.
fn unpack_plane(d: &[u8], rows: usize, width: usize) -> (r: Option<Vec<u8>>)
    ensures
        r.is_some() == decode_rle(d@, rows as int, width as int).is_some(),
        r.is_some() ==> r.unwrap()@ == decode_rle(d@, rows as int, width as int).unwrap(),
{
    if rows > d.len() / 2 {
        return None;
    }
    let mut out: Vec<u8> = Vec::new();
    let mut off: usize = 2 * rows;
    let mut row: usize = 0;
    proof {
        assert(out@ + Seq::<u8>::empty() =~= Seq::<u8>::empty());
        assert(decode_rle(d@, rows as int, width as int) == rle_rows(d@, rows as int, width as int, 0, 2 * rows));
    }
    while row < rows
        invariant
            row <= rows,
            2 * rows <= d@.len() <= usize::MAX,
            off <= d@.len(),
            decode_rle(d@, rows as int, width as int) == glue(out@, rle_rows(d@, rows as int, width as int, row as int, off as int)),
        decreases rows - row,
    {
        let c = read_u16(d, 2 * row) as usize;
        if c > d.len() - off {
            return None;
        }
        let ghost before = out@;
        let n0 = out.len();
        if !unpack_span(d, off, off + c, &mut out) {
            return None;
        }
        let ghost v = unpack_from(d@.subrange(off as int, off + c), 0).unwrap();
        if out.len() - n0 != width {
            return None;
        }
        proof {
            assert(rle_rows(d@, rows as int, width as int, row as int, off as int)
                == glue(v, rle_rows(d@, rows as int, width as int, row + 1, off + c)));
            lemma_glue_assoc(before, v, rle_rows(d@, rows as int, width as int, row + 1, off + c));
        }
        off = off + c;
        row = row + 1;
    }
    if off != d.len() {
        return None;
    }
    proof {
        assert(out@ + Seq::<u8>::empty() =~= out@);
    }
    Some(out)
}

/// Copies a raw plane, which must hold `rows * width` bytes.
fn copy_plane(d: &[u8]) -> (r: Vec<u8>)
    ensures
        r@ == d@,
{
    let mut out: Vec<u8> = Vec::new();
    let mut i: usize = 0;
    while i < d.len()
        invariant
            i <= d@.len(),
            out@ == d@.subrange(0, i as int),
        decreases d@.len() - i,
    {
        out.push(d[i]);
        i = i + 1;
        assert(out@ =~= d@.subrange(0, i as int));
    }
    assert(out@ =~= d@);
    out
}

/// Decodes a channel plane stored with compression `tag` into `rows`
/// scanlines of `width` bytes each.
pub fn decode_channel(tag: u16, d: &[u8], rows: usize, width: usize) -> (r: Result<Vec<u8>, ChannelError>)
    requires
        rows * width <= usize::MAX,
    ensures
        match (r, decode_plane(tag as int, d@, rows as int, width as int)) {
            (Ok(v), Ok(w)) => v@ == w,
            (Err(e), Err(f)) => e == f,
            _ => false,
        },
{
    if tag == 0 {
        if d.len() == rows * width {
            Ok(copy_plane(d))
        } else {
            Err(ChannelError::RawLengthMismatch)
        }
    } else if tag == 1 {
        match unpack_plane(d, rows, width) {
            Some(v) => Ok(v),
            None => Err(ChannelError::RleLengthMismatch),
        }
    } else if tag == 2 || tag == 3 {
        Err(ChannelError::UnsupportedCompression)
    } else {
        Err(ChannelError::InvalidCompression)
    }
}

/// A raw plane decodes to exactly its own bytes when it holds one sample per
/// position, and a run-length plane decodes only when its scanlines use up
/// exactly the stored bytes and give exactly `rows * width` bytes.
pub proof fn lemma_plane_round_trip(tag: int, d: Seq<u8>, rows: int, width: int)
    requires
        0 <= rows,
        0 <= width,
    ensures
        tag == 0 && d.len() == rows * width ==> decode_plane(tag, d, rows, width) == Ok::<Seq<u8>, ChannelError>(d),
        tag == 0 && d.len() != rows * width ==> decode_plane(tag, d, rows, width).is_err(),
        tag == 1 && decode_plane(tag, d, rows, width).is_ok() ==> decode_plane(tag, d, rows, width).unwrap().len() == rows * width,
{
    if tag == 1 && decode_plane(tag, d, rows, width).is_ok() {
        lemma_rle_rows_len(d, rows, width, 0, 2 * rows);
    }
}

} // verus!
