//! The image data section: the whole canvas, plane after plane.
use vstd::prelude::*;

use crate::bytes::{copy_range, read_u16, spec_u16};
use crate::channel::{compression_from_tag, compression_of, decode_channel, decode_plane, ChannelError, PsdChannelCompression};
use crate::compose::{plane_view, ChannelPlanes};
use crate::header::ColorMode;

verus! {

/// Why the image data section was rejected.
#[derive(Debug, Clone, Copy, PartialEq, Eq)]
pub enum ImageDataSectionError {
    /// The section is too short to hold its compression tag.
    Truncated,
    /// The planes are too large for this machine's address space.
    TooLarge,
    /// The planes could not be decoded.
    Channel(ChannelError),
}

/// Which stored channel fills slot `s` of the composed planes (0 to 3 the
/// color slots, 4 alpha), or -1 for none: RGB keeps three color channels and
/// then alpha, CMYK four and then alpha, every other mode its first channel
/// only.
pub open spec fn slot_channel(mode: ColorMode, s: int) -> int {
    if mode == ColorMode::Rgb {
        if s <= 2 {
            s
        } else if s == 4 {
            3
        } else {
            -1
        }
    } else if mode == ColorMode::Cmyk {
        s
    } else if s == 0 {
        0
    } else {
        -1
    }
}

/// Stored channel `k` out of `count`, each `p` bytes, of the decoded bytes `d`.
pub open spec fn pick(d: Seq<u8>, p: int, count: int, k: int) -> Option<Seq<u8>> {
    if 0 <= k < count {
        Some(d.subrange(k * p, (k + 1) * p))
    } else {
        None
    }
}

/// The composed planes hold the stored channels that the mode asks for.
pub open spec fn planes_match(pl: ChannelPlanes, d: Seq<u8>, p: int, count: int, mode: ColorMode) -> bool {
    &&& plane_view(pl.c0) == pick(d, p, count, slot_channel(mode, 0))
    &&& plane_view(pl.c1) == pick(d, p, count, slot_channel(mode, 1))
    &&& plane_view(pl.c2) == pick(d, p, count, slot_channel(mode, 2))
    &&& plane_view(pl.c3) == pick(d, p, count, slot_channel(mode, 3))
    &&& plane_view(pl.alpha) == pick(d, p, count, slot_channel(mode, 4))
}

fn slot_plane(d: &Vec<u8>, p: usize, count: usize, mode: ColorMode, s: usize) -> (r: Option<Vec<u8>>)
    requires
        s <= 4,
        d@.len() == count * p,
    ensures
        plane_view(r) == pick(d@, p as int, count as int, slot_channel(mode, s as int)),
        r is Some ==> r->Some_0@.len() == p,
{
    let k: i64 = match mode {
        ColorMode::Rgb => if s <= 2 {
            s as i64
        } else if s == 4 {
            3
        } else {
            -1
        },
        ColorMode::Cmyk => s as i64,
        _ => if s == 0 {
            0
        } else {
            -1
        },
    };
    let total = d.len();
    if 0 <= k && (k as usize) < count {
        let ku = k as usize;
        assert((ku + 1) * p <= count * p) by (nonlinear_arith)
            requires
                ku < count,
        ;
        assert(ku * p <= (ku + 1) * p && (ku + 1) * p - ku * p == p) by (nonlinear_arith);
        Some(copy_range(d.as_slice(), ku * p, (ku + 1) * p))
    } else {
        None
    }
}

/// What the image data section decodes to: its compression and the
/// canvas's planes, `count` stored channels of `width * height` samples of
/// `bps` bytes each.
pub fn parse_image_data(
    d: &[u8],
    width: u32,
    height: u32,
    bps: usize,
    count: u16,
    mode: ColorMode,
) -> (r: Result<(PsdChannelCompression, ChannelPlanes), ImageDataSectionError>)
    requires
        1 <= bps <= 4,
        1 <= width <= 30000,
        1 <= height <= 30000,
        1 <= count,
    ensures
        d@.len() < 2 ==> r == Err::<(PsdChannelCompression, ChannelPlanes), _>(ImageDataSectionError::Truncated),
        d@.len() >= 2 && count * height * width * bps > usize::MAX ==> r
            == Err::<(PsdChannelCompression, ChannelPlanes), _>(ImageDataSectionError::TooLarge),
        d@.len() >= 2 && count * height * width * bps <= usize::MAX ==> match decode_plane(
            spec_u16(d@, 0),
            d@.skip(2),
            count * height,
            width * bps,
        ) {
            Err(e) => r == Err::<(PsdChannelCompression, ChannelPlanes), _>(ImageDataSectionError::Channel(e)),
            Ok(v) => r is Ok && r->Ok_0.0 == compression_of(spec_u16(d@, 0)).unwrap() && planes_match(
                r->Ok_0.1,
                v,
                width * height * bps,
                count as int,
                mode,
            ) && r->Ok_0.1.sized(width * height * bps),
        },
{
    if d.len() < 2 {
        return Err(ImageDataSectionError::Truncated);
    }
    let tag = read_u16(d, 0);
    assert(count as int * height as int * width as int * bps as int <= 65535 * 30000 * 30000 * 4) by (nonlinear_arith)
        requires
            count <= 65535,
            height <= 30000,
            width <= 30000,
            bps <= 4,
    ;
    assert(count as int * height as int <= 65535 * 30000 && count as int * height as int * width as int <= 65535 * 30000 * 30000) by (nonlinear_arith)
        requires
            count <= 65535,
            height <= 30000,
            width <= 30000,
    ;
    if count as u64 * height as u64 * width as u64 * bps as u64 > usize::MAX as u64 {
        return Err(ImageDataSectionError::TooLarge);
    }
    assert(width * bps <= width * height * bps <= count * height * width * bps && width * height
        <= width * height * bps && (count * height) * (width * bps) == count * height * width * bps)
        by (nonlinear_arith)
        requires
            1 <= count,
            1 <= height,
            1 <= width,
            1 <= bps,
    ;
    let rows = count as usize * height as usize;
    let row_bytes = width as usize * bps;
    let p = width as usize * height as usize * bps;
    assert(rows * row_bytes == count * (width * height * bps)) by (nonlinear_arith)
        requires
            rows == count * height,
            row_bytes == width * bps,
    ;
    let body = d.split_at(2).1;
    assert(body@ =~= d@.skip(2));
    let decoded = match decode_channel(tag, body, rows, row_bytes) {
        Ok(v) => v,
        Err(e) => {
            return Err(ImageDataSectionError::Channel(e));
        },
    };
    proof {
        crate::channel::lemma_plane_round_trip(tag as int, body@, rows as int, row_bytes as int);
    }
    assert(decoded@.len() == count * p);
    let cu = count as usize;
    let c0 = slot_plane(&decoded, p, cu, mode, 0);
    let c1 = slot_plane(&decoded, p, cu, mode, 1);
    let c2 = slot_plane(&decoded, p, cu, mode, 2);
    let c3 = slot_plane(&decoded, p, cu, mode, 3);
    let alpha = slot_plane(&decoded, p, cu, mode, 4);
    let compression = compression_from_tag(tag).unwrap();
    Ok((compression, ChannelPlanes { c0, c1, c2, c3, alpha }))
}

} // verus!
