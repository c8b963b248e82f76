//! Conversion of same-sized channel planes into interleaved 8-bit RGBA.
use vstd::prelude::*;

use crate::header::ColorMode;

verus! {

/// Decoded channel planes of one image: up to four color channels (red,
/// green, blue; or cyan, magenta, yellow, black; or a single gray channel
/// first) and an optional alpha channel. Each plane holds its samples in
/// row-major order, `bps` bytes per sample.
#[derive(Debug)]
pub struct ChannelPlanes {
    pub c0: Option<Vec<u8>>,
    pub c1: Option<Vec<u8>>,
    pub c2: Option<Vec<u8>>,
    pub c3: Option<Vec<u8>>,
    pub alpha: Option<Vec<u8>>,
}

pub open spec fn plane_view(o: Option<Vec<u8>>) -> Option<Seq<u8>> {
    match o {
        Some(v) => Some(v@),
        None => None,
    }
}

pub open spec fn plane_len_ok(o: Option<Vec<u8>>, len: int) -> bool {
    o is Some ==> o->Some_0@.len() == len
}

impl ChannelPlanes {
    /// Every present plane holds `len` bytes.
    pub open spec fn sized(&self, len: int) -> bool {
        &&& plane_len_ok(self.c0, len)
        &&& plane_len_ok(self.c1, len)
        &&& plane_len_ok(self.c2, len)
        &&& plane_len_ok(self.c3, len)
        &&& plane_len_ok(self.alpha, len)
    }
}

/// The most significant byte of sample `p` of a plane, or `dflt` where the
/// plane is absent.
pub open spec fn sample(o: Option<Seq<u8>>, bps: int, p: int, dflt: int) -> int {
    match o {
        Some(s) => if 0 <= p && 0 < bps && p < s.len() as int / bps {
            s[p * bps] as int
        } else {
            dflt
        },
        None => dflt,
    }
}

/// Subtractive to additive: `255 - min(255, c + k)`.
pub open spec fn ink_to_light(c: int, k: int) -> int {
    if c + k > 255 {
        0
    } else {
        255 - (c + k)
    }
}

/// Channel `c` (0 red, 1 green, 2 blue, 3 alpha) of pixel `p` of a set of planes.
pub open spec fn px_chan(pl: ChannelPlanes, mode: ColorMode, bps: int, p: int, c: int) -> u8 {
    let s0 = sample(plane_view(pl.c0), bps, p, 0);
    if c == 3 {
        sample(plane_view(pl.alpha), bps, p, 255) as u8
    } else if mode == ColorMode::Rgb {
        if c == 0 {
            s0 as u8
        } else if c == 1 {
            sample(plane_view(pl.c1), bps, p, s0) as u8
        } else {
            sample(plane_view(pl.c2), bps, p, s0) as u8
        }
    } else if mode == ColorMode::Cmyk {
        let k = sample(plane_view(pl.c3), bps, p, 0);
        if c == 0 {
            ink_to_light(s0, k) as u8
        } else if c == 1 {
            ink_to_light(sample(plane_view(pl.c1), bps, p, 0), k) as u8
        } else {
            ink_to_light(sample(plane_view(pl.c2), bps, p, 0), k) as u8
        }
    } else {
        s0 as u8
    }
}

fn sample_at(o: &Option<Vec<u8>>, bps: usize, p: usize, dflt: u8) -> (r: u8)
    requires
        0 <= dflt <= 255,
    ensures
        r as int == sample(plane_view(*o), bps as int, p as int, dflt as int),
{
    match o {
        Some(s) => {
            if 0 < bps && p < s.len() / bps {
                let ghost n = s@.len() as int;
                let ghost b = bps as int;
                let ghost q = p as int;
                assert(q * b < n) by (nonlinear_arith)
                    requires
                        0 < b,
                        q < n / b,
                ;
                s[p * bps]
            } else {
                dflt
            }
        },
        None => dflt,
    }
}

fn light(c: u8, k: u8) -> (r: u8)
    ensures
        r as int == ink_to_light(c as int, k as int),
{
    if c as u16 + k as u16 > 255 {
        0
    } else {
        255 - (c + k)
    }
}

/// Red, green, blue and alpha of pixel `p` of a set of planes.
pub fn pixel_of(pl: &ChannelPlanes, mode: ColorMode, bps: usize, p: usize) -> (r: (u8, u8, u8, u8))
    ensures
        r.0 == px_chan(*pl, mode, bps as int, p as int, 0),
        r.1 == px_chan(*pl, mode, bps as int, p as int, 1),
        r.2 == px_chan(*pl, mode, bps as int, p as int, 2),
        r.3 == px_chan(*pl, mode, bps as int, p as int, 3),
{
    let s0 = sample_at(&pl.c0, bps, p, 0);
    let a = sample_at(&pl.alpha, bps, p, 255);
    match mode {
        ColorMode::Rgb => {
            let g = sample_at(&pl.c1, bps, p, s0);
            let b = sample_at(&pl.c2, bps, p, s0);
            (s0, g, b, a)
        },
        ColorMode::Cmyk => {
            let k = sample_at(&pl.c3, bps, p, 0);
            let m = sample_at(&pl.c1, bps, p, 0);
            let y = sample_at(&pl.c2, bps, p, 0);
            (light(s0, k), light(m, k), light(y, k), a)
        },
        _ => (s0, s0, s0, a),
    }
}

/// Interleaved RGBA of `npix` pixels, pixel `p` taken from sample `p` of the planes.
pub open spec fn planes_rgba(pl: ChannelPlanes, mode: ColorMode, bps: int, npix: int) -> Seq<u8> {
    Seq::new((npix * 4) as nat, |i: int| px_chan(pl, mode, bps, i / 4, i % 4))
}

/// Converts `npix` pixels of a set of planes to interleaved RGBA.
pub fn rgba_of_planes(pl: &ChannelPlanes, mode: ColorMode, bps: usize, npix: usize) -> (r: Vec<u8>)
    requires
        npix * 4 <= usize::MAX,
    ensures
        r@ == planes_rgba(*pl, mode, bps as int, npix as int),
{
    let mut out: Vec<u8> = Vec::with_capacity(npix * 4);
    let mut p: usize = 0;
    while p < npix
        invariant
            p <= npix,
            npix * 4 <= usize::MAX,
            out@.len() == p * 4,
            forall|i: int| 0 <= i < p * 4 ==> #[trigger] out@[i] == px_chan(*pl, mode, bps as int, i / 4, i % 4),
        decreases npix - p,
    {
        let px = pixel_of(pl, mode, bps, p);
        out.push(px.0);
        out.push(px.1);
        out.push(px.2);
        out.push(px.3);
        proof {
            assert forall|i: int| 0 <= i < (p + 1) * 4 implies #[trigger] out@[i] == px_chan(*pl, mode, bps as int, i / 4, i % 4) by {
                if i >= p * 4 {
                    assert(i / 4 == p as int);
                }
            }
        }
        p = p + 1;
    }
    assert(out@ =~= planes_rgba(*pl, mode, bps as int, npix as int));
    out
}

} // verus!
