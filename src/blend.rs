//! Opacity scaling and source-over compositing of 8-bit RGBA pixels.
use vstd::prelude::*;

verus! {

/// An 8-bit pixel: red, green, blue, alpha.
pub type Px = (u8, u8, u8, u8);

/// Alpha scaled linearly by a layer opacity: `alpha * opacity / 255`.
pub open spec fn opacity_spec(p: Px, opacity: u8) -> Px {
    (p.0, p.1, p.2, (p.3 as int * opacity as int / 255) as u8)
}

/// The weight of "src over dst", scaled by 255: `sa * 255 + da * (255 - sa)`.
pub open spec fn over_weight(sa: int, da: int) -> int {
    sa * 255 + da * (255 - sa)
}

/// One color channel of "src over dst": the alpha-weighted mean of the two.
pub open spec fn over_chan(sc: int, sa: int, dc: int, da: int) -> int {
    let w = over_weight(sa, da);
    if w == 0 {
        0
    } else {
        (sc * sa * 255 + dc * da * (255 - sa)) / w
    }
}

/// Source-over compositing of `src` onto `dst`.
pub open spec fn over_spec(src: Px, dst: Px) -> Px {
    let sa = src.3 as int;
    let da = dst.3 as int;
    (
        over_chan(src.0 as int, sa, dst.0 as int, da) as u8,
        over_chan(src.1 as int, sa, dst.1 as int, da) as u8,
        over_chan(src.2 as int, sa, dst.2 as int, da) as u8,
        (over_weight(sa, da) / 255) as u8,
    )
}

pub fn apply_opacity(p: Px, opacity: u8) -> (r: Px)
    ensures
        r == opacity_spec(p, opacity),
        r.3 <= p.3,
{
    assert(p.3 as int * opacity as int <= 255 * 255) by (nonlinear_arith)
        requires
            p.3 <= 255,
            opacity <= 255,
    ;
    assert(p.3 as int * opacity as int / 255 <= p.3 as int) by (nonlinear_arith)
        requires
            opacity <= 255,
            0 <= p.3,
    ;
    (p.0, p.1, p.2, (p.3 as u32 * opacity as u32 / 255) as u8)
}

proof fn lemma_over_bounds(sc: int, sa: int, dc: int, da: int)
    requires
        0 <= sc <= 255,
        0 <= sa <= 255,
        0 <= dc <= 255,
        0 <= da <= 255,
    ensures
        0 <= over_weight(sa, da) <= 255 * 255,
        0 <= sc * sa * 255 <= 255 * 255 * 255,
        0 <= dc * da * (255 - sa) <= 255 * 255 * 255,
        0 <= over_chan(sc, sa, dc, da) <= 255,
        0 <= sc * sa <= 255 * 255,
        0 <= dc * da <= 255 * 255,
{
    assert(0 <= sc * sa <= 255 * 255) by (nonlinear_arith)
        requires
            0 <= sc <= 255,
            0 <= sa <= 255,
    ;
    assert(0 <= dc * da <= 255 * 255) by (nonlinear_arith)
        requires
            0 <= dc <= 255,
            0 <= da <= 255,
    ;
    assert(0 <= da * (255 - sa) <= 255 * (255 - sa)) by (nonlinear_arith)
        requires
            0 <= da <= 255,
            0 <= sa <= 255,
    ;
    assert(0 <= sc * sa * 255 <= 255 * 255 * 255) by (nonlinear_arith)
        requires
            0 <= sc <= 255,
            0 <= sa <= 255,
    ;
    assert(0 <= dc * da * (255 - sa) <= 255 * 255 * 255) by (nonlinear_arith)
        requires
            0 <= dc <= 255,
            0 <= da <= 255,
            0 <= sa <= 255,
    ;
    let w = over_weight(sa, da);
    if w != 0 {
        let num = sc * sa * 255 + dc * da * (255 - sa);
        assert(num <= 255 * w) by (nonlinear_arith)
            requires
                0 <= sc <= 255,
                0 <= dc <= 255,
                0 <= sa <= 255,
                0 <= da <= 255,
                num == sc * sa * 255 + dc * da * (255 - sa),
                w == sa * 255 + da * (255 - sa),
        ;
        assert(num / w <= 255) by (nonlinear_arith)
            requires
                0 <= num <= 255 * w,
                w > 0,
        ;
        assert(0 <= num / w) by (nonlinear_arith)
            requires
                0 <= num,
                w > 0,
        ;
    }
}

fn over_channel(sc: u8, sa: u8, dc: u8, da: u8) -> (r: u8)
    ensures
        r == over_chan(sc as int, sa as int, dc as int, da as int) as u8,
{
    proof {
        lemma_over_bounds(sc as int, sa as int, dc as int, da as int);
    }
    let w: u32 = sa as u32 * 255 + da as u32 * (255 - sa as u32);
    if w == 0 {
        0
    } else {
        let num: u32 = sc as u32 * sa as u32 * 255 + dc as u32 * da as u32 * (255 - sa as u32);
        (num / w) as u8
    }
}

/// Composites `src` over `dst`.
pub fn blend_pixels(src: Px, dst: Px) -> (r: Px)
    ensures
        r == over_spec(src, dst),
{
    proof {
        lemma_over_bounds(0, src.3 as int, 0, dst.3 as int);
    }
    let w: u32 = src.3 as u32 * 255 + dst.3 as u32 * (255 - src.3 as u32);
    (
        over_channel(src.0, src.3, dst.0, dst.3),
        over_channel(src.1, src.3, dst.1, dst.3),
        over_channel(src.2, src.3, dst.2, dst.3),
        (w / 255) as u8,
    )
}

} // verus!
