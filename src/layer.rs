//! Layers and groups of a document.
use vstd::prelude::*;

use crate::blend::Px;
use crate::compose::{pixel_of, px_chan, ChannelPlanes};
use crate::header::ColorMode;

verus! {

/// One layer: its name, bounding rectangle on the canvas (top-left
/// inclusive, bottom-right exclusive), how it is drawn, and its decoded
/// channel planes over its own rectangle.
#[derive(Debug)]
pub struct PsdLayer {
    pub name: Vec<u8>,
    pub layer_top: i32,
    pub layer_left: i32,
    pub layer_bottom: i32,
    pub layer_right: i32,
    pub opacity: u8,
    pub visible: bool,
    pub clipping_mask: bool,
    /// The four-byte blend mode key, big-endian.
    pub blend_mode: u32,
    pub planes: ChannelPlanes,
    pub psd_width: u32,
    pub psd_height: u32,
    /// Bytes per channel sample.
    pub bps: usize,
    pub color_mode: ColorMode,
}

/// A group (folder) of layers: the layers with stacking indices
/// `contained_layers_start..contained_layers_end`.
#[derive(Debug)]
pub struct PsdGroup {
    pub id: u32,
    pub name: Vec<u8>,
    pub contained_layers_start: usize,
    pub contained_layers_end: usize,
}

/// Width (or height) of a span from `lo` to `hi`; zero when degenerate.
pub open spec fn span(lo: int, hi: int) -> int {
    if hi > lo {
        hi - lo
    } else {
        0
    }
}

impl PsdLayer {
    pub open spec fn local_width(&self) -> int {
        span(self.layer_left as int, self.layer_right as int)
    }

    pub open spec fn local_height(&self) -> int {
        span(self.layer_top as int, self.layer_bottom as int)
    }

    /// Every present plane holds one sample for each position of the
    /// layer's rectangle.
    pub open spec fn wf(&self) -> bool {
        &&& 1 <= self.psd_width <= 30000
        &&& 1 <= self.psd_height <= 30000
        &&& 1 <= self.bps <= 4
        &&& self.psd_width * self.psd_height * 4 <= usize::MAX
        &&& self.local_width() * self.local_height() * self.bps <= usize::MAX
        &&& self.planes.sized(self.local_width() * self.local_height() * self.bps)
    }

    /// Whether canvas position `(x, y)` lies in the layer's rectangle.
    pub open spec fn covers(&self, x: int, y: int) -> bool {
        &&& self.layer_left <= x < self.layer_right
        &&& self.layer_top <= y < self.layer_bottom
    }

    /// Channel `c` of the layer's pixel at canvas position `(x, y)`;
    /// transparent black outside its rectangle.
    pub open spec fn pixel_chan(&self, x: int, y: int, c: int) -> u8 {
        if self.covers(x, y) {
            let p = (y - self.layer_top) * self.local_width() + (x - self.layer_left);
            px_chan(self.planes, self.color_mode, self.bps as int, p, c)
        } else {
            0
        }
    }

    pub open spec fn pixel_spec(&self, x: int, y: int) -> Px {
        (self.pixel_chan(x, y, 0), self.pixel_chan(x, y, 1), self.pixel_chan(x, y, 2), self.pixel_chan(x, y, 3))
    }

    /// The layer drawn on a transparent canvas, as interleaved RGBA.
    pub open spec fn rgba_view(&self) -> Seq<u8> {
        let w = self.psd_width as int;
        Seq::new(
            (w * self.psd_height as int * 4) as nat,
            |i: int| self.pixel_chan((i / 4) % w, (i / 4) / w, i % 4),
        )
    }

    /// The layer's pixel at canvas position `(x, y)`.
    pub fn pixel(&self, x: u32, y: u32) -> (r: Px)
        requires
            self.wf(),
        ensures
            r == self.pixel_spec(x as int, y as int),
    {
        let xi = x as i64;
        let yi = y as i64;
        if self.layer_left as i64 <= xi && xi < self.layer_right as i64 && self.layer_top as i64 <= yi && yi
            < self.layer_bottom as i64 {
            let ghost lw = self.local_width();
            let ghost lh = self.local_height();
            let ghost dy = yi - self.layer_top;
            let ghost dx = xi - self.layer_left;
            proof {
                assert(dy * lw + dx < lw * lh) by (nonlinear_arith)
                    requires
                        0 <= dy < lh,
                        0 <= dx < lw,
                ;
                assert(lw * lh <= lw * lh * self.bps) by (nonlinear_arith)
                    requires
                        self.bps >= 1,
                        lw >= 0,
                        lh >= 0,
                ;
                assert(dy * lw <= dy * lw + dx);
                assert(0 <= dy * lw) by (nonlinear_arith)
                    requires
                        0 <= dy,
                        0 <= lw,
                ;
            }
            let w = (self.layer_right as i64 - self.layer_left as i64) as usize;
            let p = (yi - self.layer_top as i64) as usize * w + (xi - self.layer_left as i64) as usize;
            let q = pixel_of(&self.planes, self.color_mode, self.bps, p);
            q
        } else {
            (0, 0, 0, 0)
        }
    }

    /// The layer drawn on a transparent canvas of the document's size, as
    /// interleaved RGBA.
    pub fn rgba(&self) -> (r: Vec<u8>)
        requires
            self.wf(),
        ensures
            r@ == self.rgba_view(),
            r@.len() == self.psd_width * self.psd_height * 4,
    {
        let w = self.psd_width;
        assert(self.psd_width * self.psd_height <= 900000000) by (nonlinear_arith)
            requires
                1 <= self.psd_width <= 30000,
                1 <= self.psd_height <= 30000,
        ;
        let n: usize = self.psd_width as usize * self.psd_height as usize;
        let mut out: Vec<u8> = Vec::new();
        let mut q: usize = 0;
        while q < n
            invariant
                self.wf(),
                w == self.psd_width,
                n == self.psd_width * self.psd_height,
                n <= 900000000,
                q <= n,
                out@.len() == q * 4,
                forall|i: int| 0 <= i < q * 4 ==> #[trigger] out@[i] == self.pixel_chan((i / 4) % (w as int), (i / 4) / (w as int), i % 4),
            decreases n - q,
        {
            assert(q as int / w as int <= q) by (nonlinear_arith)
                requires
                    w >= 1,
                    q >= 0,
            ;
            let x = (q % w as usize) as u32;
            let y = (q / w as usize) as u32;
            let px = self.pixel(x, y);
            assert(x as int == (q as int) % (w as int) && y as int == (q as int) / (w as int));
            out.push(px.0);
            out.push(px.1);
            out.push(px.2);
            out.push(px.3);
            proof {
                assert forall|i: int| 0 <= i < (q + 1) * 4 implies #[trigger] out@[i] == self.pixel_chan((i / 4) % (w as int), (i / 4) / (w as int), i % 4) by {
                    if i >= q * 4 {
                        assert(i / 4 == q as int);
                        assert(i % 4 == i - q * 4);
                    }
                }
            }
            q = q + 1;
        }
        assert(out@ =~= self.rgba_view());
        out
    }

    /// The layer's name, as stored in the file.
    pub fn name(&self) -> (r: &Vec<u8>)
        ensures
            r == &self.name,
    {
        &self.name
    }
}

} // verus!
