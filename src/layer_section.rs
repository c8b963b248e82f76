//! The layer and mask information section: layer records, group markers and
//! the layers' channel data.
use vstd::prelude::*;

use crate::bytes::{copy_range, read_i16, read_i32, read_u16, read_u32, spec_i16, spec_i32, spec_u16, spec_u32};
use crate::channel::{decode_channel, decode_plane, ChannelError};
use crate::compose::{plane_len_ok, plane_view, ChannelPlanes};
use crate::header::ColorMode;
use crate::layer::{PsdGroup, PsdLayer};
use crate::{groups_ok, nested_or_disjoint};

verus! {

/// Why the layer and mask information section was rejected; `layer` is the
/// position of the offending record in the file.
#[derive(Debug, Clone, Copy, PartialEq, Eq)]
pub enum PsdLayerError {
    /// The section or its layer info is cut short.
    Truncated,
    /// A layer record or its channel data is cut short, or its fields do
    /// not fit in it.
    MalformedRecord { layer: usize },
    /// A blend mode or additional information block lacks its signature.
    InvalidSignature { layer: usize },
    /// A group closes with no group open, or groups are left open.
    UnbalancedGroups { layer: usize },
    /// A layer is too large for this machine's address space.
    TooLarge { layer: usize },
    /// A layer's channel could not be decoded.
    Channel { layer: usize, error: ChannelError },
}

/// One entry of a record's channel table.
struct ChannelInfo {
    kind: i16,
    len: u32,
}

/// A layer record as stored, before its channel data is read.
struct LayerRecord {
    top: i32,
    left: i32,
    bottom: i32,
    right: i32,
    channels: Vec<ChannelInfo>,
    blend_mode: u32,
    opacity: u8,
    clipping: u8,
    flags: u8,
    name: Vec<u8>,
    /// The section divider type: 0 for a plain layer, 1 or 2 for the record
    /// that opens a group, 3 for the one that closes it.
    divider: u32,
}

/// A group whose opening record has been read: the number of layers read
/// before it, its ID, its name and the position of its opening record.
struct Pending {
    open: usize,
    id: u32,
    name: Vec<u8>,
    rec: Ghost<int>,
}

/// An additional information block signature: `8BIM` or `8B64`.
pub open spec fn is_block_sig(s: Seq<u8>, q: int) -> bool {
    &&& s[q] == 0x38
    &&& s[q + 1] == 0x42
    &&& ((s[q + 2] == 0x49 && s[q + 3] == 0x4d) || (s[q + 2] == 0x36 && s[q + 3] == 0x34))
}

/// The additional information blocks of `s[q..end]` are well framed: each
/// has a signature, a key and a length, and the last ends at `end`.
pub open spec fn blocks_ok(s: Seq<u8>, q: int, end: int) -> bool
    decreases end - q,
{
    if q >= end {
        true
    } else if end - q < 12 || !is_block_sig(s, q) || spec_u32(s, q + 8) > end - q - 12 {
        false
    } else {
        blocks_ok(s, q + 12 + spec_u32(s, q + 8), end)
    }
}

/// The section divider type that the blocks of `s[q..end]` give: that of
/// the last `lsct` block, else `acc`.
pub open spec fn blocks_divider(s: Seq<u8>, q: int, end: int, acc: int) -> int
    decreases end - q,
{
    if q >= end || end - q < 12 || spec_u32(s, q + 8) > end - q - 12 {
        acc
    } else {
        let len = spec_u32(s, q + 8);
        let next = if spec_u32(s, q + 4) == 0x6c736374 && len >= 4 {
            spec_u32(s, q + 12)
        } else {
            acc
        };
        blocks_divider(s, q + 12 + len, end, next)
    }
}

/// Where the blend mode signature of the record at `pos` stands, after its
/// channel table.
pub open spec fn rec_q(s: Seq<u8>, pos: int) -> int {
    pos + 18 + 6 * spec_u16(s, pos + 16)
}

/// Where the record at `pos` ends: after its extra data.
pub open spec fn rec_end(s: Seq<u8>, pos: int) -> int {
    rec_q(s, pos) + 16 + spec_u32(s, rec_q(s, pos) + 12)
}

/// Where the name of the record at `pos` stands, after the layer mask data
/// and the blending ranges.
pub open spec fn rec_name_at(s: Seq<u8>, pos: int) -> int {
    let p0 = rec_q(s, pos) + 16;
    let p1 = p0 + 4 + spec_u32(s, p0);
    p1 + 4 + spec_u32(s, p1)
}

/// The Pascal name bytes of the record at `pos`.
pub open spec fn rec_name(s: Seq<u8>, pos: int) -> Seq<u8> {
    let p2 = rec_name_at(s, pos);
    s.subrange(p2 + 1, p2 + 1 + s[p2] as int)
}

/// Where the additional information blocks of the record at `pos` start,
/// after its name padded to a multiple of four bytes.
pub open spec fn rec_blocks_at(s: Seq<u8>, pos: int) -> int {
    let p2 = rec_name_at(s, pos);
    p2 + (s[p2] as int + 4) / 4 * 4
}

/// The record at `pos` is well framed and ends by `end`.
pub open spec fn record_ok(s: Seq<u8>, pos: int, end: int) -> bool {
    let q = rec_q(s, pos);
    let xe = rec_end(s, pos);
    let p0 = q + 16;
    let p1 = p0 + 4 + spec_u32(s, p0);
    let p2 = rec_name_at(s, pos);
    &&& end - pos >= 18
    &&& end - (pos + 18) >= 6 * spec_u16(s, pos + 16)
    &&& end - q >= 16
    &&& s[q] == 0x38 && s[q + 1] == 0x42 && s[q + 2] == 0x49 && s[q + 3] == 0x4d
    &&& xe <= end
    &&& xe - p0 >= 4
    &&& spec_u32(s, p0) <= xe - p0 - 4
    &&& xe - p1 >= 4
    &&& spec_u32(s, p1) <= xe - p1 - 4
    &&& xe - p2 >= 1
    &&& (s[p2] as int + 4) / 4 * 4 <= xe - p2
    &&& blocks_ok(s, rec_blocks_at(s, pos), xe)
}

/// The section divider type of the record at `pos`.
pub open spec fn rec_divider(s: Seq<u8>, pos: int) -> int {
    blocks_divider(s, rec_blocks_at(s, pos), rec_end(s, pos), 0)
}

/// Where record `i` starts: the first at offset 6 of the section, each
/// after the one before.
pub open spec fn rec_start(s: Seq<u8>, i: int) -> int
    decreases i,
{
    if i <= 0 {
        6
    } else {
        rec_end(s, rec_start(s, i - 1))
    }
}

/// Records `0..n` are well framed and end by `end`.
pub open spec fn records_ok(s: Seq<u8>, end: int, n: int) -> bool {
    forall|i: int| 0 <= i < n ==> record_ok(s, #[trigger] rec_start(s, i), end)
}

/// Width and height of the rectangle of the record at `rp`.
pub open spec fn rec_width(s: Seq<u8>, rp: int) -> int {
    crate::layer::span(spec_i32(s, rp + 4), spec_i32(s, rp + 12))
}

pub open spec fn rec_height(s: Seq<u8>, rp: int) -> int {
    crate::layer::span(spec_i32(s, rp), spec_i32(s, rp + 8))
}

/// The planes of the record at `rp` fit this machine's address space.
pub open spec fn size_ok(s: Seq<u8>, rp: int, bps: int) -> bool {
    &&& rec_width(s, rp) * bps <= usize::MAX
    &&& rec_width(s, rp) * bps * rec_height(s, rp) <= usize::MAX
}

/// Where the data of channels `c..` of the record at `rp` ends, when it
/// starts at `d`: each entry's data holds a compression tag and, for a
/// color or transparency channel, a plane that decodes over the record's
/// rectangle. `None` when one does not.
pub open spec fn chans_from(s: Seq<u8>, rp: int, c: int, d: int, end: int, bps: int) -> Option<int>
    decreases spec_u16(s, rp + 16) - c,
{
    if c < 0 || c >= spec_u16(s, rp + 16) {
        Some(d)
    } else {
        let kind = spec_i16(s, rp + 18 + 6 * c);
        let len = spec_u32(s, rp + 20 + 6 * c);
        if len > end - d || len < 2 {
            None
        } else if -1 <= kind <= 3 && decode_plane(
            spec_u16(s, d),
            s.subrange(d + 2, d + len),
            rec_height(s, rp),
            rec_width(s, rp) * bps,
        ) is Err {
            None
        } else {
            chans_from(s, rp, c + 1, d + len, end, bps)
        }
    }
}

/// The channel data of records `i..n`, starting at `d`, is sound.
pub open spec fn data_from(s: Seq<u8>, i: int, n: int, d: int, end: int, bps: int) -> bool
    decreases n - i,
{
    if i >= n {
        true
    } else {
        let rp = rec_start(s, i);
        size_ok(s, rp, bps) && match chans_from(s, rp, 0, d, end, bps) {
            Some(d2) => data_from(s, i + 1, n, d2, end, bps),
            None => false,
        }
    }
}

/// The group markers of records `i..n` close every group they open, and
/// the `depth` groups already open, and close none that is not open.
pub open spec fn balanced_from(s: Seq<u8>, i: int, n: int, depth: int) -> bool
    decreases n - i,
{
    if i >= n {
        depth == 0
    } else {
        let dv = rec_divider(s, rec_start(s, i));
        if dv == 1 || dv == 2 {
            balanced_from(s, i + 1, n, depth + 1)
        } else if dv == 3 {
            depth > 0 && balanced_from(s, i + 1, n, depth - 1)
        } else {
            balanced_from(s, i + 1, n, depth)
        }
    }
}

/// The record at `rp` is a plain layer, not a group marker.
#[verifier::opaque]
pub open spec fn is_leaf(s: Seq<u8>, rp: int) -> bool {
    let d = rec_divider(s, rp);
    !(d == 1 || d == 2 || d == 3)
}

/// The number of plain layer records among records `0..j`.
pub open spec fn leaves_before(s: Seq<u8>, j: int) -> int
    decreases j,
{
    if j <= 0 {
        0
    } else {
        leaves_before(s, j - 1) + if is_leaf(s, rec_start(s, j - 1)) {
            1int
        } else {
            0int
        }
    }
}

/// The layer `l` has the name, rectangle, blend mode, opacity, clipping and
/// visibility stored in the record at `rp` (flag bit 1 hides a layer).
#[verifier::opaque]
pub open spec fn layer_from(s: Seq<u8>, l: PsdLayer, rp: int) -> bool {
    let q = rec_q(s, rp);
    &&& l.layer_top == spec_i32(s, rp)
    &&& l.layer_left == spec_i32(s, rp + 4)
    &&& l.layer_bottom == spec_i32(s, rp + 8)
    &&& l.layer_right == spec_i32(s, rp + 12)
    &&& l.blend_mode == spec_u32(s, q + 4)
    &&& l.opacity == s[q + 8]
    &&& l.clipping_mask == (s[q + 9] != 0)
    &&& l.visible == (s[q + 10] & 2u8 == 0u8)
    &&& l.name@ == rec_name(s, rp)
}

/// The layers, bottom first, are the plain records of the first `n`, in
/// reverse file order.
#[verifier::opaque]
pub open spec fn layers_match(s: Seq<u8>, layers: Seq<PsdLayer>, n: int) -> bool {
    &&& layers.len() == leaves_before(s, n)
    &&& forall|j: int|
        0 <= j < n && is_leaf(s, #[trigger] rec_start(s, j)) ==> leaves_before(s, j) < layers.len() && layer_from(
            s,
            layers[layers.len() - 1 - leaves_before(s, j)],
            rec_start(s, j),
        )
}

/// When a layer and mask information section with `bps`-byte samples is
/// read without error: it is empty, or its layer info is empty, or the
/// layer info fits in the section and its records, their channel data and
/// their group markers are all sound.
pub open spec fn section_ok(s: Seq<u8>, bps: int) -> bool {
    if s.len() == 0 {
        true
    } else if s.len() < 4 {
        false
    } else if spec_u32(s, 0) == 0 {
        true
    } else {
        let end = 4 + spec_u32(s, 0);
        let n = abs(spec_i16(s, 4));
        &&& spec_u32(s, 0) <= s.len() - 4
        &&& spec_u32(s, 0) >= 2
        &&& records_ok(s, end, n)
        &&& data_from(s, 0, n, rec_start(s, n), end, bps)
        &&& balanced_from(s, 0, n, 0)
    }
}

fn is_sig(s: &[u8], i: usize, b2: u8, b3: u8) -> (r: bool)
    requires
        i + 4 <= s@.len(),
    ensures
        r == (s@[i as int] == 0x38 && s@[i + 1] == 0x42 && s@[i + 2] == b2 && s@[i + 3] == b3),
{
    s[i] == 0x38 && s[i + 1] == 0x42 && s[i + 2] == b2 && s[i + 3] == b3
}

/// Reads the additional information blocks in `s[start..end]` and returns the
/// section divider type they give, 0 where none does.
fn read_divider(s: &[u8], start: usize, end: usize, idx: usize) -> (r: Result<u32, PsdLayerError>)
    requires
        start <= end <= s@.len(),
    ensures
        r is Ok <==> blocks_ok(s@, start as int, end as int),
        r is Ok ==> r->Ok_0 == blocks_divider(s@, start as int, end as int, 0),
        r is Err ==> r->Err_0 == blocks_err(s@, start as int, end as int, idx as int),
{
    let mut q = start;
    let mut divider: u32 = 0;
    while q < end
        invariant
            start <= q <= end <= s@.len(),
            blocks_ok(s@, start as int, end as int) == blocks_ok(s@, q as int, end as int),
            blocks_divider(s@, start as int, end as int, 0) == blocks_divider(s@, q as int, end as int, divider as int),
            !blocks_ok(s@, start as int, end as int) ==> blocks_err(s@, start as int, end as int, idx as int) == blocks_err(s@, q as int, end as int, idx as int),
        decreases end - q,
    {
        if end - q < 12 {
            return Err(PsdLayerError::MalformedRecord { layer: idx });
        }
        if !is_sig(s, q, 0x49, 0x4d) && !is_sig(s, q, 0x36, 0x34) {
            return Err(PsdLayerError::InvalidSignature { layer: idx });
        }
        let key = read_u32(s, q + 4);
        let len = read_u32(s, q + 8) as usize;
        if len > end - q - 12 {
            return Err(PsdLayerError::MalformedRecord { layer: idx });
        }
        if key == 0x6c736374 && len >= 4 {
            divider = read_u32(s, q + 12);
        }
        q = q + 12 + len;
    }
    Ok(divider)
}

/// Reads the layer record at `s[pos..end]` and where the next one starts.
fn parse_record(s: &[u8], pos: usize, end: usize, idx: usize) -> (r: Result<(LayerRecord, usize), PsdLayerError>)
    requires
        pos <= end <= s@.len(),
    ensures
        r is Ok ==> {
            let rec = r->Ok_0.0;
            let nch = spec_u16(s@, pos + 16);
            let q = pos + 18 + 6 * nch;
            &&& pos <= r->Ok_0.1 <= end
            &&& rec.top == spec_i32(s@, pos as int)
            &&& rec.left == spec_i32(s@, pos + 4)
            &&& rec.bottom == spec_i32(s@, pos + 8)
            &&& rec.right == spec_i32(s@, pos + 12)
            &&& rec.channels@.len() == nch
            &&& forall|i: int|
                0 <= i < nch ==> (#[trigger] rec.channels@[i]).kind == spec_i16(s@, pos + 18 + 6 * i)
                    && rec.channels@[i].len == spec_u32(s@, pos + 20 + 6 * i)
            &&& rec.blend_mode == spec_u32(s@, q + 4)
            &&& rec.opacity == s@[q + 8]
            &&& rec.clipping == s@[q + 9]
            &&& rec.flags == s@[q + 10]
            &&& r->Ok_0.1 == q + 16 + spec_u32(s@, q + 12)
            &&& r->Ok_0.1 == rec_end(s@, pos as int)
            &&& rec.name@ == rec_name(s@, pos as int)
            &&& rec.divider == rec_divider(s@, pos as int)
        },
        r is Ok <==> record_ok(s@, pos as int, end as int),
        r is Err ==> r->Err_0 == record_err(s@, pos as int, end as int, idx as int),
{
    let bad = PsdLayerError::MalformedRecord { layer: idx };
    if end - pos < 18 {
        return Err(bad);
    }
    let top = read_i32(s, pos);
    let left = read_i32(s, pos + 4);
    let bottom = read_i32(s, pos + 8);
    let right = read_i32(s, pos + 12);
    let nch = read_u16(s, pos + 16) as usize;
    let mut p = pos + 18;
    if end - p < nch * 6 {
        return Err(bad);
    }
    let mut channels: Vec<ChannelInfo> = Vec::new();
    let mut c: usize = 0;
    while c < nch
        invariant
            pos + 18 <= p <= end <= s@.len(),
            c <= nch,
            p == pos + 18 + c * 6,
            nch * 6 <= end - (pos + 18),
            nch == spec_u16(s@, pos + 16),
            channels@.len() == c,
            forall|i: int|
                0 <= i < c ==> (#[trigger] channels@[i]).kind == spec_i16(s@, pos + 18 + 6 * i)
                    && channels@[i].len == spec_u32(s@, pos + 20 + 6 * i),
        decreases nch - c,
    {
        let kind = read_i16(s, p);
        let len = read_u32(s, p + 2);
        let ghost before = channels@;
        channels.push(ChannelInfo { kind, len });
        assert(forall|i: int| 0 <= i < c ==> #[trigger] channels@[i] == before[i]);
        p = p + 6;
        c = c + 1;
    }
    if end - p < 16 {
        return Err(bad);
    }
    if !is_sig(s, p, 0x49, 0x4d) {
        return Err(PsdLayerError::InvalidSignature { layer: idx });
    }
    let blend_mode = read_u32(s, p + 4);
    let opacity = s[p + 8];
    let clipping = s[p + 9];
    let flags = s[p + 10];
    let extra_len = read_u32(s, p + 12) as usize;
    p = p + 16;
    if extra_len > end - p {
        return Err(bad);
    }
    let extra_end = p + extra_len;
    // layer mask data, then blending ranges: each a length and its bytes
    if extra_end - p < 4 {
        return Err(bad);
    }
    let mask_len = read_u32(s, p) as usize;
    if mask_len > extra_end - p - 4 {
        return Err(bad);
    }
    p = p + 4 + mask_len;
    if extra_end - p < 4 {
        return Err(bad);
    }
    let ranges_len = read_u32(s, p) as usize;
    if ranges_len > extra_end - p - 4 {
        return Err(bad);
    }
    p = p + 4 + ranges_len;
    if extra_end - p < 1 {
        return Err(bad);
    }
    let name_len = s[p] as usize;
    let field = (name_len + 1 + 3) / 4 * 4;
    if field > extra_end - p {
        return Err(bad);
    }
    let name = copy_range(s, p + 1, p + 1 + name_len);
    p = p + field;
    assert(p == rec_blocks_at(s@, pos as int));
    let divider = read_divider(s, p, extra_end, idx)?;
    Ok((LayerRecord { top, left, bottom, right, channels, blend_mode, opacity, clipping, flags, name, divider }, extra_end))
}

/// Width (or height) of the span from `lo` to `hi`, zero when degenerate.
fn span_len(lo: i32, hi: i32) -> (r: u32)
    ensures
        r as int == crate::layer::span(lo as int, hi as int),
{
    if hi as i64 > lo as i64 {
        (hi as i64 - lo as i64) as u32
    } else {
        0
    }
}

/// Reads the channel data of `rec` from `s[pos..end]` into planes over the
/// record's rectangle, and where the next record's data starts.
fn read_planes(
    s: &[u8],
    pos: usize,
    end: usize,
    rec: &LayerRecord,
    bps: usize,
    idx: usize,
    rp: Ghost<int>,
) -> (r: Result<(ChannelPlanes, usize), PsdLayerError>)
    requires
        pos <= end <= s@.len(),
        1 <= bps <= 4,
        rec.top == spec_i32(s@, rp@),
        rec.left == spec_i32(s@, rp@ + 4),
        rec.bottom == spec_i32(s@, rp@ + 8),
        rec.right == spec_i32(s@, rp@ + 12),
        rec.channels@.len() == spec_u16(s@, rp@ + 16),
        forall|i: int|
            0 <= i < rec.channels@.len() ==> (#[trigger] rec.channels@[i]).kind == spec_i16(s@, rp@ + 18 + 6 * i)
                && rec.channels@[i].len == spec_u32(s@, rp@ + 20 + 6 * i),
    ensures
        r is Ok <==> size_ok(s@, rp@, bps as int) && chans_from(s@, rp@, 0, pos as int, end as int, bps as int) is Some,
        r is Ok ==> r->Ok_0.1 == chans_from(s@, rp@, 0, pos as int, end as int, bps as int)->Some_0,
        r is Ok ==> planes_from(s@, r->Ok_0.0, rp@, pos as int, end as int, bps as int),
        r is Err ==> r->Err_0 == if !size_ok(s@, rp@, bps as int) {
            PsdLayerError::TooLarge { layer: idx }
        } else {
            chans_err(s@, rp@, 0, pos as int, end as int, bps as int, idx as int)
        },
        r is Ok ==> {
            let n = crate::layer::span(rec.left as int, rec.right as int) * crate::layer::span(rec.top as int, rec.bottom as int) * bps;
            &&& pos <= r->Ok_0.1 <= end
            &&& n <= usize::MAX
            &&& r->Ok_0.0.sized(n)
        },
{
    let lw = span_len(rec.left, rec.right);
    let lh = span_len(rec.top, rec.bottom);
    let ghost n = lw * lh * bps;
    let width: usize = match (lw as usize).checked_mul(bps) {
        Some(v) => v,
        None => {
            return Err(PsdLayerError::TooLarge { layer: idx });
        },
    };
    let total: usize = match width.checked_mul(lh as usize) {
        Some(v) => v,
        None => {
            return Err(PsdLayerError::TooLarge { layer: idx });
        },
    };
    assert(n == lh * width && n == width * lh) by (nonlinear_arith)
        requires
            width == lw * bps,
            n == lw * lh * bps,
    ;
    let mut planes = ChannelPlanes { c0: None, c1: None, c2: None, c3: None, alpha: None };
    let mut p = pos;
    let mut c: usize = 0;
    while c < rec.channels.len()
        invariant
            pos <= p <= end <= s@.len(),
            size_ok(s@, rp@, bps as int),
            lw == rec_width(s@, rp@),
            lh == rec_height(s@, rp@),
            width == lw * bps,
            c <= rec.channels@.len(),
            rec.channels@.len() == spec_u16(s@, rp@ + 16),
            forall|i: int|
                0 <= i < rec.channels@.len() ==> (#[trigger] rec.channels@[i]).kind == spec_i16(s@, rp@ + 18 + 6 * i)
                    && rec.channels@[i].len == spec_u32(s@, rp@ + 20 + 6 * i),
            chans_from(s@, rp@, 0, pos as int, end as int, bps as int) == chans_from(s@, rp@, c as int, p as int, end as int, bps as int),
            chans_from(s@, rp@, 0, pos as int, end as int, bps as int) is None ==> chans_err(s@, rp@, 0, pos as int, end as int, bps as int, idx as int) == chans_err(s@, rp@, c as int, p as int, end as int, bps as int, idx as int),
            plane_of_kind(s@, rp@, 0, pos as int, end as int, bps as int, 0, None) == plane_of_kind(s@, rp@, c as int, p as int, end as int, bps as int, 0, plane_view(planes.c0)),
            plane_of_kind(s@, rp@, 0, pos as int, end as int, bps as int, 1, None) == plane_of_kind(s@, rp@, c as int, p as int, end as int, bps as int, 1, plane_view(planes.c1)),
            plane_of_kind(s@, rp@, 0, pos as int, end as int, bps as int, 2, None) == plane_of_kind(s@, rp@, c as int, p as int, end as int, bps as int, 2, plane_view(planes.c2)),
            plane_of_kind(s@, rp@, 0, pos as int, end as int, bps as int, 3, None) == plane_of_kind(s@, rp@, c as int, p as int, end as int, bps as int, 3, plane_view(planes.c3)),
            plane_of_kind(s@, rp@, 0, pos as int, end as int, bps as int, -1, None) == plane_of_kind(s@, rp@, c as int, p as int, end as int, bps as int, -1, plane_view(planes.alpha)),
            n == lh * width,
            total == n,
            planes.sized(n),
        decreases rec.channels@.len() - c,
    {
        let info = &rec.channels[c];
        let len = info.len as usize;
        assert(info.kind == spec_i16(s@, rp@ + 18 + 6 * c) && info.len == spec_u32(s@, rp@ + 20 + 6 * c));
        if len > end - p || len < 2 {
            return Err(PsdLayerError::MalformedRecord { layer: idx });
        }
        if info.kind >= -1 && info.kind <= 3 {
            let tag = read_u16(s, p);
            let data = copy_range(s, p + 2, p + len);
            let plane = match decode_channel(tag, data.as_slice(), lh as usize, width) {
                Ok(v) => v,
                Err(e) => {
                    return Err(PsdLayerError::Channel { layer: idx, error: e });
                },
            };
            proof {
                crate::channel::lemma_plane_round_trip(tag as int, data@, lh as int, width as int);
            }
            assert(plane_len_ok(Some(plane), n));
            if info.kind == 0 {
                planes.c0 = Some(plane);
            } else if info.kind == 1 {
                planes.c1 = Some(plane);
            } else if info.kind == 2 {
                planes.c2 = Some(plane);
            } else if info.kind == 3 {
                planes.c3 = Some(plane);
            } else {
                planes.alpha = Some(plane);
            }
        }
        p = p + len;
        c = c + 1;
    }
    assert(planes_from(s@, planes, rp@, pos as int, end as int, bps as int)) by {
        reveal(planes_from);
    }
    Ok((planes, p))
}

/// The plane that channels `c..` of the record at `rp` leave in the slot of
/// channel kind `kind`, their data starting at `d`: the last such channel
/// decoded over the record's rectangle, else `acc`.
pub open spec fn plane_of_kind(s: Seq<u8>, rp: int, c: int, d: int, end: int, bps: int, kind: int, acc: Option<Seq<u8>>) -> Option<Seq<u8>>
    decreases spec_u16(s, rp + 16) - c,
{
    if c < 0 || c >= spec_u16(s, rp + 16) {
        acc
    } else {
        let len = spec_u32(s, rp + 20 + 6 * c);
        if len > end - d || len < 2 {
            acc
        } else {
            let next = if spec_i16(s, rp + 18 + 6 * c) == kind {
                Some(
                    decode_plane(spec_u16(s, d), s.subrange(d + 2, d + len), rec_height(s, rp), rec_width(s, rp) * bps)->Ok_0,
                )
            } else {
                acc
            };
            plane_of_kind(s, rp, c + 1, d + len, end, bps, kind, next)
        }
    }
}

/// The planes of a layer are those its record's channel data, starting at
/// `d`, decodes to: red, green, blue and black (or gray first) by kinds 0 to
/// 3, transparency by kind -1.
#[verifier::opaque]
pub open spec fn planes_from(s: Seq<u8>, pl: ChannelPlanes, rp: int, d: int, end: int, bps: int) -> bool {
    &&& plane_view(pl.c0) == plane_of_kind(s, rp, 0, d, end, bps, 0, None)
    &&& plane_view(pl.c1) == plane_of_kind(s, rp, 0, d, end, bps, 1, None)
    &&& plane_view(pl.c2) == plane_of_kind(s, rp, 0, d, end, bps, 2, None)
    &&& plane_view(pl.c3) == plane_of_kind(s, rp, 0, d, end, bps, 3, None)
    &&& plane_view(pl.alpha) == plane_of_kind(s, rp, 0, d, end, bps, -1, None)
}

/// Where the channel data of record `j` starts, among `n` records whose
/// layer info ends at `end`: right after the records, each record's data
/// after the one before.
#[verifier::opaque]
pub open spec fn data_at(s: Seq<u8>, j: int, n: int, end: int, bps: int) -> int
    decreases j,
{
    if j <= 0 {
        rec_start(s, n)
    } else {
        chans_from(s, rec_start(s, j - 1), 0, data_at(s, j - 1, n, end, bps), end, bps)->Some_0
    }
}

/// Layer `l` holds the samples of record `j`: its sample width, color mode
/// and the planes that the record's channel data decodes to.
#[verifier::opaque]
pub open spec fn layer_data(s: Seq<u8>, l: PsdLayer, j: int, n: int, end: int, bps: int, mode: ColorMode) -> bool {
    &&& l.bps == bps
    &&& l.color_mode == mode
    &&& planes_from(s, l.planes, rec_start(s, j), data_at(s, j, n, end, bps), end, bps)
}

/// Leaves read so far, top first, hold the samples of their records.
#[verifier::opaque]
spec fn leaves_data(s: Seq<u8>, leaves: Seq<PsdLayer>, r: int, n: int, end: int, bps: int, mode: ColorMode) -> bool {
    forall|j: int|
        0 <= j < r && is_leaf(s, #[trigger] rec_start(s, j)) ==> leaves_before(s, j) < leaves.len() && layer_data(
            s,
            leaves[leaves_before(s, j)],
            j,
            n,
            end,
            bps,
            mode,
        )
}

/// The layers, bottom first, hold the samples of the plain records among
/// the first `n`, in reverse file order.
#[verifier::opaque]
pub open spec fn layers_data(s: Seq<u8>, layers: Seq<PsdLayer>, n: int, end: int, bps: int, mode: ColorMode) -> bool {
    forall|j: int|
        0 <= j < n && is_leaf(s, #[trigger] rec_start(s, j)) ==> leaves_before(s, j) < layers.len() && layer_data(
            s,
            layers[layers.len() - 1 - leaves_before(s, j)],
            j,
            n,
            end,
            bps,
            mode,
        )
}

proof fn lemma_data_at_step(s: Seq<u8>, j: int, n: int, end: int, bps: int)
    requires
        0 <= j,
    ensures
        data_at(s, j + 1, n, end, bps) == chans_from(s, rec_start(s, j), 0, data_at(s, j, n, end, bps), end, bps)->Some_0,
        data_at(s, 0, n, end, bps) == rec_start(s, n),
{
    reveal(data_at);
}

proof fn lemma_data_start(s: Seq<u8>, n: int, end: int, bps: int, mode: ColorMode)
    ensures
        leaves_data(s, Seq::empty(), 0, n, end, bps, mode),
{
    reveal(leaves_data);
}

proof fn lemma_data_leaf(
    s: Seq<u8>,
    before: Seq<PsdLayer>,
    after: Seq<PsdLayer>,
    r: int,
    l: PsdLayer,
    n: int,
    end: int,
    bps: int,
    mode: ColorMode,
)
    requires
        0 <= r,
        leaves_data(s, before, r, n, end, bps, mode),
        before.len() == leaves_before(s, r),
        after == before.push(l),
        layer_data(s, l, r, n, end, bps, mode),
    ensures
        leaves_data(s, after, r + 1, n, end, bps, mode),
{
    reveal(leaves_data);
    assert forall|j: int|
        0 <= j < r + 1 && is_leaf(s, #[trigger] rec_start(s, j)) implies leaves_before(s, j) < after.len()
        && layer_data(s, after[leaves_before(s, j)], j, n, end, bps, mode) by {
        lemma_leaves_before_nonneg(s, j);
        if j < r {
            assert(after[leaves_before(s, j)] == before[leaves_before(s, j)]);
        }
    }
}

proof fn lemma_data_marker(s: Seq<u8>, leaves: Seq<PsdLayer>, r: int, n: int, end: int, bps: int, mode: ColorMode)
    requires
        leaves_data(s, leaves, r, n, end, bps, mode),
        !is_leaf(s, rec_start(s, r)),
    ensures
        leaves_data(s, leaves, r + 1, n, end, bps, mode),
{
    reveal(leaves_data);
}

proof fn lemma_data_reversed(
    s: Seq<u8>,
    lv: Seq<PsdLayer>,
    layers: Seq<PsdLayer>,
    n: int,
    end: int,
    bps: int,
    mode: ColorMode,
)
    requires
        leaves_data(s, lv, n, n, end, bps, mode),
        layers.len() == lv.len(),
        forall|i: int| 0 <= i < layers.len() ==> #[trigger] layers[i] == lv[lv.len() - 1 - i],
    ensures
        layers_data(s, layers, n, end, bps, mode),
{
    reveal(leaves_data);
    reveal(layers_data);
    assert forall|j: int|
        0 <= j < n && is_leaf(s, #[trigger] rec_start(s, j)) implies leaves_before(s, j) < layers.len() && layer_data(
        s,
        layers[layers.len() - 1 - leaves_before(s, j)],
        j,
        n,
        end,
        bps,
        mode,
    ) by {
        lemma_leaves_before_nonneg(s, j);
        assert(layers[layers.len() - 1 - leaves_before(s, j)] == lv[leaves_before(s, j)]);
    }
}

/// The error that the blocks of `s[q..end]` give in record `idx`.
pub open spec fn blocks_err(s: Seq<u8>, q: int, end: int, idx: int) -> PsdLayerError
    decreases end - q,
{
    if q >= end || end - q < 12 {
        PsdLayerError::MalformedRecord { layer: idx as usize }
    } else if !is_block_sig(s, q) {
        PsdLayerError::InvalidSignature { layer: idx as usize }
    } else if spec_u32(s, q + 8) > end - q - 12 {
        PsdLayerError::MalformedRecord { layer: idx as usize }
    } else {
        blocks_err(s, q + 12 + spec_u32(s, q + 8), end, idx)
    }
}

/// The error that the record `idx` at `pos` gives when it is not well framed,
/// its checks taken in file order.
pub open spec fn record_err(s: Seq<u8>, pos: int, end: int, idx: int) -> PsdLayerError {
    let bad = PsdLayerError::MalformedRecord { layer: idx as usize };
    let q = rec_q(s, pos);
    let xe = rec_end(s, pos);
    let p0 = q + 16;
    let p1 = p0 + 4 + spec_u32(s, p0);
    let p2 = rec_name_at(s, pos);
    if end - pos < 18 || end - (pos + 18) < 6 * spec_u16(s, pos + 16) || end - q < 16 {
        bad
    } else if !(s[q] == 0x38 && s[q + 1] == 0x42 && s[q + 2] == 0x49 && s[q + 3] == 0x4d) {
        PsdLayerError::InvalidSignature { layer: idx as usize }
    } else if xe > end || xe - p0 < 4 || spec_u32(s, p0) > xe - p0 - 4 || xe - p1 < 4 || spec_u32(s, p1) > xe - p1 - 4
        || xe - p2 < 1 || (s[p2] as int + 4) / 4 * 4 > xe - p2 {
        bad
    } else {
        blocks_err(s, rec_blocks_at(s, pos), xe, idx)
    }
}

/// The error of the first record among `j..n` that is not well framed.
pub open spec fn first_record_err(s: Seq<u8>, end: int, j: int, n: int) -> Option<PsdLayerError>
    decreases n - j,
{
    if j >= n {
        None
    } else if !record_ok(s, rec_start(s, j), end) {
        Some(record_err(s, rec_start(s, j), end, j))
    } else {
        first_record_err(s, end, j + 1, n)
    }
}

/// The error that channels `c..` of record `idx` at `rp` give, their data
/// starting at `d`.
pub open spec fn chans_err(s: Seq<u8>, rp: int, c: int, d: int, end: int, bps: int, idx: int) -> PsdLayerError
    decreases spec_u16(s, rp + 16) - c,
{
    if c < 0 || c >= spec_u16(s, rp + 16) {
        PsdLayerError::MalformedRecord { layer: idx as usize }
    } else {
        let kind = spec_i16(s, rp + 18 + 6 * c);
        let len = spec_u32(s, rp + 20 + 6 * c);
        let decoded = decode_plane(spec_u16(s, d), s.subrange(d + 2, d + len), rec_height(s, rp), rec_width(s, rp) * bps);
        if len > end - d || len < 2 {
            PsdLayerError::MalformedRecord { layer: idx as usize }
        } else if -1 <= kind <= 3 && decoded is Err {
            PsdLayerError::Channel { layer: idx as usize, error: decoded->Err_0 }
        } else {
            chans_err(s, rp, c + 1, d + len, end, bps, idx)
        }
    }
}

/// The first error of the channel data and group markers of records
/// `i..n`, the data starting at `d` with `depth` groups open: a record too
/// large, a channel cut short or not decoding, a group closed while none is
/// open, or groups left open after the last record.
pub open spec fn data_err(s: Seq<u8>, i: int, n: int, d: int, depth: int, end: int, bps: int) -> Option<PsdLayerError>
    decreases n - i,
{
    if i >= n {
        if depth != 0 {
            Some(PsdLayerError::UnbalancedGroups { layer: n as usize })
        } else {
            None
        }
    } else {
        let rp = rec_start(s, i);
        if !size_ok(s, rp, bps) {
            Some(PsdLayerError::TooLarge { layer: i as usize })
        } else {
            match chans_from(s, rp, 0, d, end, bps) {
                None => Some(chans_err(s, rp, 0, d, end, bps, i)),
                Some(d2) => {
                    let dv = rec_divider(s, rp);
                    if dv == 1 || dv == 2 {
                        data_err(s, i + 1, n, d2, depth + 1, end, bps)
                    } else if dv == 3 {
                        if depth == 0 {
                            Some(PsdLayerError::UnbalancedGroups { layer: i as usize })
                        } else {
                            data_err(s, i + 1, n, d2, depth - 1, end, bps)
                        }
                    } else {
                        data_err(s, i + 1, n, d2, depth, end, bps)
                    }
                },
            }
        }
    }
}

/// The error that reading a layer and mask information section gives: a
/// cut-short section or layer info, else the first badly framed record,
/// else the first fault in channel data or group markers.
pub open spec fn section_err(s: Seq<u8>, bps: int) -> Option<PsdLayerError> {
    if s.len() == 0 {
        None
    } else if s.len() < 4 {
        Some(PsdLayerError::Truncated)
    } else if spec_u32(s, 0) == 0 {
        None
    } else if spec_u32(s, 0) > s.len() - 4 || spec_u32(s, 0) < 2 {
        Some(PsdLayerError::Truncated)
    } else {
        let end = 4 + spec_u32(s, 0);
        let n = abs(spec_i16(s, 4));
        match first_record_err(s, end, 0, n) {
            Some(e) => Some(e),
            None => data_err(s, 0, n, rec_start(s, n), 0, end, bps),
        }
    }
}

/// The record at `rp` opens a group.
#[verifier::opaque]
pub open spec fn is_open_rec(s: Seq<u8>, rp: int) -> bool {
    rec_divider(s, rp) == 1 || rec_divider(s, rp) == 2
}

/// The record at `rp` closes a group.
#[verifier::opaque]
pub open spec fn is_close_rec(s: Seq<u8>, rp: int) -> bool {
    rec_divider(s, rp) == 3
}

/// The number of records among the first `j` that open a group.
pub open spec fn opens_before(s: Seq<u8>, j: int) -> int
    decreases j,
{
    if j <= 0 {
        0
    } else {
        opens_before(s, j - 1) + if is_open_rec(s, rec_start(s, j - 1)) {
            1int
        } else {
            0int
        }
    }
}

/// How many groups are open before record `j`.
pub open spec fn depth_before(s: Seq<u8>, j: int) -> int
    decreases j,
{
    if j <= 0 {
        0
    } else {
        depth_before(s, j - 1) + if is_open_rec(s, rec_start(s, j - 1)) {
            1int
        } else if is_close_rec(s, rec_start(s, j - 1)) {
            -1int
        } else {
            0int
        }
    }
}

/// Record `o` opens group `g` and record `c` is the one that closes it:
/// `g` takes its ID from the count of opening records up to `o` and its
/// name from `o`, and every record strictly between them leaves `g` open.
pub open spec fn group_core(s: Seq<u8>, g: PsdGroup, o: int, c: int) -> bool {
    &&& 0 <= o < c
    &&& is_open_rec(s, rec_start(s, o))
    &&& is_close_rec(s, rec_start(s, c))
    &&& g.id == opens_before(s, o) + 1
    &&& g.name@ == rec_name(s, rec_start(s, o))
    &&& depth_before(s, c) == depth_before(s, o) + 1
    &&& forall|j: int| o < j < c ==> #[trigger] depth_before(s, j) > depth_before(s, o)
}

/// Group `g` of a document with `n` layers stems from the opening and
/// closing records among the first `nrec`: its range holds the layers read
/// between them, as stacking indices.
pub open spec fn group_from_records(s: Seq<u8>, g: PsdGroup, n: int, nrec: int) -> bool {
    exists|o: int, c: int|
        #[trigger] group_core(s, g, o, c) && c < nrec && g.contained_layers_start == n - leaves_before(s, c)
            && g.contained_layers_end == n - leaves_before(s, o)
}

/// Closed group `g` stems from the records `oc`, both before `r`; its range
/// is counted from the top.
spec fn done_ok(s: Seq<u8>, g: PsdGroup, oc: (int, int), r: int) -> bool {
    &&& oc.1 < r
    &&& group_core(s, g, oc.0, oc.1)
    &&& g.contained_layers_start == leaves_before(s, oc.0)
    &&& g.contained_layers_end == leaves_before(s, oc.1)
}

/// Open group `p`, `i`-th on the stack, stems from an opening record before
/// `r` and stays open through record `r`.
spec fn pending_ok(s: Seq<u8>, p: Pending, i: int, r: int) -> bool {
    let o = p.rec@;
    &&& 0 <= o < r
    &&& is_open_rec(s, rec_start(s, o))
    &&& p.id == opens_before(s, o) + 1
    &&& p.name@ == rec_name(s, rec_start(s, o))
    &&& p.open == leaves_before(s, o)
    &&& depth_before(s, o) == i
    &&& forall|j: int| o < j <= r ==> #[trigger] depth_before(s, j) > i
}

/// The groups read from the first `r` records, closed and open, each traced
/// to its records.
#[verifier::opaque]
spec fn traced(s: Seq<u8>, done: Seq<PsdGroup>, origins: Seq<(int, int)>, stack: Seq<Pending>, r: int) -> bool {
    &&& origins.len() == done.len()
    &&& forall|i: int| 0 <= i < done.len() ==> done_ok(s, #[trigger] done[i], origins[i], r)
    &&& stack.len() == depth_before(s, r)
    &&& forall|i: int| 0 <= i < stack.len() ==> pending_ok(s, #[trigger] stack[i], i, r)
}

proof fn lemma_leaves_len(s: Seq<u8>, leaves: Seq<PsdLayer>, r: int)
    requires
        leaves_match(s, leaves, r),
    ensures
        leaves.len() == leaves_before(s, r),
{
    reveal(leaves_match);
}

proof fn lemma_trace_start(s: Seq<u8>)
    ensures
        traced(s, Seq::empty(), Seq::empty(), Seq::empty(), 0),
{
    reveal(traced);
}

proof fn lemma_trace_open(
    s: Seq<u8>,
    done: Seq<PsdGroup>,
    origins: Seq<(int, int)>,
    st0: Seq<Pending>,
    st1: Seq<Pending>,
    r: int,
)
    requires
        0 <= r,
        traced(s, done, origins, st0, r),
        is_open_rec(s, rec_start(s, r)),
        st1.len() == st0.len() + 1,
        forall|i: int| 0 <= i < st0.len() ==> #[trigger] st1[i] == st0[i],
        st1.last().open == leaves_before(s, r),
        st1.last().id == opens_before(s, r) + 1,
        st1.last().name@ == rec_name(s, rec_start(s, r)),
        st1.last().rec@ == r,
    ensures
        traced(s, done, origins, st1, r + 1),
{
    reveal(traced);
    assert(depth_before(s, r + 1) == depth_before(s, r) + 1);
    assert forall|i: int| 0 <= i < done.len() implies done_ok(s, #[trigger] done[i], origins[i], r + 1) by {
        assert(done_ok(s, done[i], origins[i], r));
    }
    assert forall|i: int| 0 <= i < st1.len() implies pending_ok(s, #[trigger] st1[i], i, r + 1) by {
        if i < st0.len() {
            assert(st1[i] == st0[i]);
            assert(pending_ok(s, st0[i], i, r));
        }
    }
}

proof fn lemma_trace_close(
    s: Seq<u8>,
    d0: Seq<PsdGroup>,
    d1: Seq<PsdGroup>,
    origins: Seq<(int, int)>,
    st0: Seq<Pending>,
    st1: Seq<Pending>,
    r: int,
)
    requires
        0 <= r,
        traced(s, d0, origins, st0, r),
        is_close_rec(s, rec_start(s, r)),
        !is_open_rec(s, rec_start(s, r)),
        st0.len() > 0,
        st1.len() == st0.len() - 1,
        forall|i: int| 0 <= i < st1.len() ==> #[trigger] st1[i] == st0[i],
        d1.len() == d0.len() + 1,
        forall|i: int| 0 <= i < d0.len() ==> #[trigger] d1[i] == d0[i],
        d1.last().id == st0.last().id,
        d1.last().name@ == st0.last().name@,
        d1.last().contained_layers_start == st0.last().open,
        d1.last().contained_layers_end == leaves_before(s, r),
    ensures
        traced(s, d1, origins.push((st0.last().rec@, r)), st1, r + 1),
{
    reveal(traced);
    let top = st0.last();
    let o = top.rec@;
    let no = origins.push((o, r));
    assert(pending_ok(s, st0[st0.len() - 1], st0.len() - 1, r));
    assert(depth_before(s, r + 1) == depth_before(s, r) - 1);
    assert forall|j: int| o < j < r implies #[trigger] depth_before(s, j) > depth_before(s, o) by {
        assert(o < j <= r);
    }
    assert(group_core(s, d1.last(), o, r));
    assert forall|i: int| 0 <= i < d1.len() implies done_ok(s, #[trigger] d1[i], no[i], r + 1) by {
        if i < d0.len() {
            assert(d1[i] == d0[i]);
            assert(done_ok(s, d0[i], origins[i], r));
        } else {
            assert(d1[i] == d1.last());
        }
    }
    assert forall|i: int| 0 <= i < st1.len() implies pending_ok(s, #[trigger] st1[i], i, r + 1) by {
        assert(st1[i] == st0[i]);
        assert(pending_ok(s, st0[i], i, r));
    }
}

proof fn lemma_trace_leaf(s: Seq<u8>, done: Seq<PsdGroup>, origins: Seq<(int, int)>, st: Seq<Pending>, r: int)
    requires
        0 <= r,
        traced(s, done, origins, st, r),
        !is_open_rec(s, rec_start(s, r)),
        !is_close_rec(s, rec_start(s, r)),
    ensures
        traced(s, done, origins, st, r + 1),
{
    reveal(traced);
    assert(depth_before(s, r + 1) == depth_before(s, r));
    assert forall|i: int| 0 <= i < done.len() implies done_ok(s, #[trigger] done[i], origins[i], r + 1) by {
        assert(done_ok(s, done[i], origins[i], r));
    }
    assert forall|i: int| 0 <= i < st.len() implies pending_ok(s, #[trigger] st[i], i, r + 1) by {
        assert(pending_ok(s, st[i], i, r));
    }
}

proof fn lemma_trace_end(s: Seq<u8>, done: Seq<PsdGroup>, origins: Seq<(int, int)>, st: Seq<Pending>, r: int)
    requires
        traced(s, done, origins, st, r),
    ensures
        origins.len() == done.len(),
        st.len() == depth_before(s, r),
        forall|i: int| 0 <= i < done.len() ==> done_ok(s, #[trigger] done[i], origins[i], r),
{
    reveal(traced);
}

/// The record `rec` holds the fields of the record stored at `rp`.
#[verifier::opaque]
spec fn rec_matches(s: Seq<u8>, rec: LayerRecord, rp: int) -> bool {
    &&& rec.top == spec_i32(s, rp)
    &&& rec.left == spec_i32(s, rp + 4)
    &&& rec.bottom == spec_i32(s, rp + 8)
    &&& rec.right == spec_i32(s, rp + 12)
    &&& rec.channels@.len() == spec_u16(s, rp + 16)
    &&& forall|i: int|
        0 <= i < rec.channels@.len() ==> (#[trigger] rec.channels@[i]).kind == spec_i16(s, rp + 18 + 6 * i)
            && rec.channels@[i].len == spec_u32(s, rp + 20 + 6 * i)
    &&& rec.divider == rec_divider(s, rp)
    &&& rec.blend_mode == spec_u32(s, rec_q(s, rp) + 4)
    &&& rec.opacity == s[rec_q(s, rp) + 8]
    &&& rec.clipping == s[rec_q(s, rp) + 9]
    &&& rec.flags == s[rec_q(s, rp) + 10]
    &&& rec.name@ == rec_name(s, rp)
}

proof fn lemma_rec_fields(s: Seq<u8>, rec: LayerRecord, rp: int)
    requires
        rec_matches(s, rec, rp),
    ensures
        rec.top == spec_i32(s, rp),
        rec.left == spec_i32(s, rp + 4),
        rec.bottom == spec_i32(s, rp + 8),
        rec.right == spec_i32(s, rp + 12),
        rec.channels@.len() == spec_u16(s, rp + 16),
        forall|i: int|
            0 <= i < rec.channels@.len() ==> (#[trigger] rec.channels@[i]).kind == spec_i16(s, rp + 18 + 6 * i)
                && rec.channels@[i].len == spec_u32(s, rp + 20 + 6 * i),
        rec.divider == rec_divider(s, rp),
        rec.blend_mode == spec_u32(s, rec_q(s, rp) + 4),
        rec.opacity == s[rec_q(s, rp) + 8],
        rec.clipping == s[rec_q(s, rp) + 9],
        rec.flags == s[rec_q(s, rp) + 10],
        rec.name@ == rec_name(s, rp),
{
    reveal(rec_matches);
}

/// Leaves read so far, top first: one for each plain record among the first `r`.
#[verifier::opaque]
spec fn leaves_match(s: Seq<u8>, leaves: Seq<PsdLayer>, r: int) -> bool {
    &&& leaves.len() == leaves_before(s, r)
    &&& forall|j: int|
        0 <= j < r && is_leaf(s, #[trigger] rec_start(s, j)) ==> leaves_before(s, j) < leaves.len()
            && layer_from(s, leaves[leaves_before(s, j)], rec_start(s, j))
}

/// Group ranges `done` (counted from the top) are laminar and end by `k`,
/// and each lies wholly below or wholly above the opening point of every
/// group still open.
spec fn stack_ok(done: Seq<PsdGroup>, stack: Seq<Pending>, k: int) -> bool {
    &&& groups_ok(done, k)
    &&& forall|i: int| 0 <= i < stack.len() ==> #[trigger] stack[i].open <= k
    &&& forall|i: int, j: int| 0 <= i < j < stack.len() ==> #[trigger] stack[i].open <= #[trigger] stack[j].open
    &&& forall|g: int, i: int|
        0 <= g < done.len() && 0 <= i < stack.len() ==> (#[trigger] done[g]).contained_layers_end <= (
        #[trigger] stack[i]).open || done[g].contained_layers_start >= stack[i].open
}

/// Group IDs are unique among the groups done and still open, and below `next`.
spec fn ids_ok(done: Seq<PsdGroup>, stack: Seq<Pending>, next: int) -> bool {
    &&& forall|i: int| 0 <= i < done.len() ==> 1 <= (#[trigger] done[i]).id < next
    &&& forall|i: int| 0 <= i < stack.len() ==> 1 <= (#[trigger] stack[i]).id < next
    &&& forall|i: int, j: int| 0 <= i < j < done.len() ==> (#[trigger] done[i]).id != (#[trigger] done[j]).id
    &&& forall|i: int, j: int| 0 <= i < j < stack.len() ==> (#[trigger] stack[i]).id != (#[trigger] stack[j]).id
    &&& forall|i: int, j: int|
        0 <= i < done.len() && 0 <= j < stack.len() ==> (#[trigger] done[i]).id != (#[trigger] stack[j]).id
    &&& forall|id: int|
        1 <= id < next ==> #[trigger] id_used(done, stack, id)
}

/// Some group, done or still open, has ID `id`.
spec fn id_used(done: Seq<PsdGroup>, stack: Seq<Pending>, id: int) -> bool {
    (exists|i: int| 0 <= i < done.len() && (#[trigger] done[i]).id == id) || (exists|i: int|
        0 <= i < stack.len() && (#[trigger] stack[i]).id == id)
}

/// Groups are numbered 1 to their count, without repeats, and `ids` is that
/// numbering in order.
pub open spec fn numbered(groups: Seq<PsdGroup>, ids: Seq<u32>) -> bool {
    &&& ids.len() == groups.len()
    &&& forall|i: int| 0 <= i < ids.len() ==> #[trigger] ids[i] == i + 1
    &&& forall|i: int| 0 <= i < groups.len() ==> 1 <= (#[trigger] groups[i]).id <= groups.len()
    &&& forall|i: int, j: int| 0 <= i < j < groups.len() ==> (#[trigger] groups[i]).id != (#[trigger] groups[j]).id
    &&& forall|id: int| 1 <= id <= groups.len() ==> #[trigger] has_id(groups, id)
}

/// Some group of `groups` has ID `id`.
pub open spec fn has_id(groups: Seq<PsdGroup>, id: int) -> bool {
    exists|i: int| 0 <= i < groups.len() && (#[trigger] groups[i]).id == id
}

/// The groups read so far: those closed (`done`) and those still open
/// (`stack`), with their IDs in opening order.
struct GroupState {
    done: Vec<PsdGroup>,
    stack: Vec<Pending>,
    ids: Vec<u32>,
    next_id: u32,
}

impl GroupState {
    /// After `k` layers: ranges laminar and placed against the open groups,
    /// IDs unique and numbered from 1 in opening order.
    #[verifier::opaque]
    spec fn wf(&self, k: int) -> bool {
        &&& stack_ok(self.done@, self.stack@, k)
        &&& ids_ok(self.done@, self.stack@, self.next_id as int)
        &&& self.next_id == self.ids@.len() + 1
        &&& self.ids@.len() == self.done@.len() + self.stack@.len()
        &&& forall|i: int| 0 <= i < self.ids@.len() ==> #[trigger] self.ids@[i] == i + 1
    }

    proof fn lemma_grow(&self, k: int)
        requires
            self.wf(k),
        ensures
            self.wf(k + 1),
    {
        reveal(GroupState::wf);
    }

    proof fn lemma_unpack(&self, k: int)
        requires
            self.wf(k),
        ensures
            stack_ok(self.done@, self.stack@, k),
            ids_ok(self.done@, self.stack@, self.next_id as int),
            self.next_id == self.ids@.len() + 1,
            self.ids@.len() == self.done@.len() + self.stack@.len(),
            forall|i: int| 0 <= i < self.ids@.len() ==> #[trigger] self.ids@[i] == i + 1,
    {
        reveal(GroupState::wf);
    }

    /// Opens a group after `k` layers.
    fn open(&mut self, k: usize, name: Vec<u8>, o: Ghost<int>)
        requires
            old(self).wf(k as int),
            old(self).next_id < 40000,
        ensures
            final(self).wf(k as int),
            final(self).stack@.len() == old(self).stack@.len() + 1,
            forall|i: int| 0 <= i < old(self).stack@.len() ==> #[trigger] final(self).stack@[i] == old(self).stack@[i],
            final(self).stack@.last().open == k,
            final(self).stack@.last().id == old(self).next_id,
            final(self).stack@.last().name@ == name@,
            final(self).stack@.last().rec@ == o@,
            final(self).done@ == old(self).done@,
            final(self).next_id == old(self).next_id + 1,
    {
        reveal(GroupState::wf);
        let ghost nv = name@;
        let id = self.next_id;
        let ghost sbefore = self.stack@;
        let ghost ibefore = self.ids@;
        self.ids.push(id);
        self.stack.push(Pending { open: k, id, name, rec: o });
        self.next_id = self.next_id + 1;
        proof {
            assert(forall|i: int| 0 <= i < sbefore.len() ==> #[trigger] self.stack@[i] == sbefore[i]);
            assert(forall|i: int| 0 <= i < ibefore.len() ==> #[trigger] self.ids@[i] == ibefore[i]);
            assert forall|x: int| 1 <= x < self.next_id implies #[trigger] id_used(self.done@, self.stack@, x) by {
                if x == id {
                    assert(self.stack@[sbefore.len() as int].id == x);
                } else {
                    assert(id_used(self.done@, sbefore, x));
                    if exists|i: int| 0 <= i < sbefore.len() && (#[trigger] sbefore[i]).id == x {
                        let i = choose|i: int| 0 <= i < sbefore.len() && (#[trigger] sbefore[i]).id == x;
                        assert(self.stack@[i].id == x);
                    }
                }
            }
        }
    }

    /// Closes the innermost open group after `k` layers; `false`, with
    /// nothing changed, when none is open.
    fn close(&mut self, k: usize) -> (r: bool)
        requires
            old(self).wf(k as int),
        ensures
            r == (old(self).stack@.len() > 0),
            r ==> final(self).wf(k as int) && final(self).stack@.len() == old(self).stack@.len() - 1
                && final(self).done@.len() == old(self).done@.len() + 1 && final(self).next_id == old(self).next_id,
            r ==> forall|i: int| 0 <= i < final(self).stack@.len() ==> #[trigger] final(self).stack@[i] == old(self).stack@[i],
            r ==> forall|i: int| 0 <= i < old(self).done@.len() ==> #[trigger] final(self).done@[i] == old(self).done@[i],
            r ==> final(self).done@.last().id == old(self).stack@.last().id,
            r ==> final(self).done@.last().name@ == old(self).stack@.last().name@,
            r ==> final(self).done@.last().contained_layers_start == old(self).stack@.last().open,
            r ==> final(self).done@.last().contained_layers_end == k,
    {
        reveal(GroupState::wf);
        let ghost sfull = self.stack@;
        let top = match self.stack.pop() {
            Some(t) => t,
            None => {
                return false;
            },
        };
        let ghost before = self.done@;
        assert(top == sfull[sfull.len() - 1]);
        assert(forall|i: int| 0 <= i < self.stack@.len() ==> #[trigger] self.stack@[i] == sfull[i]);
        let g = PsdGroup { id: top.id, name: top.name, contained_layers_start: top.open, contained_layers_end: k };
        self.done.push(g);
        proof {
            assert forall|i: int, j: int|
                0 <= i < self.done@.len() && 0 <= j < self.done@.len() && i != j implies nested_or_disjoint(
                #[trigger] self.done@[i],
                #[trigger] self.done@[j],
            ) by {
                if i < before.len() && j < before.len() {
                    assert(self.done@[i] == before[i] && self.done@[j] == before[j]);
                }
            }
            assert forall|x: int| 1 <= x < self.next_id implies #[trigger] id_used(self.done@, self.stack@, x) by {
                assert(id_used(before, sfull, x));
                if exists|i: int| 0 <= i < before.len() && (#[trigger] before[i]).id == x {
                    let i = choose|i: int| 0 <= i < before.len() && (#[trigger] before[i]).id == x;
                    assert(self.done@[i].id == x);
                } else {
                    let i = choose|i: int| 0 <= i < sfull.len() && (#[trigger] sfull[i]).id == x;
                    if i == sfull.len() - 1 {
                        assert(self.done@[before.len() as int].id == x);
                    } else {
                        assert(self.stack@[i].id == x);
                    }
                }
            }
        }
        true
    }
}

/// The ranges of `done`, counted from the top of `n` layers, turned into
/// stacking indices (counted from the bottom).
fn flip_groups(done: &Vec<PsdGroup>, n: usize, next: Ghost<int>) -> (r: Vec<PsdGroup>)
    requires
        groups_ok(done@, n as int),
        ids_ok(done@, Seq::<Pending>::empty(), next@),
        next@ == done@.len() + 1,
    ensures
        groups_ok(r@, n as int),
        r@.len() == done@.len(),
        forall|i: int| 0 <= i < r@.len() ==> (#[trigger] r@[i]).id == done@[i].id,
        forall|i: int|
            0 <= i < r@.len() ==> (#[trigger] r@[i]).name@ == done@[i].name@ && r@[i].contained_layers_start == n
                - done@[i].contained_layers_end && r@[i].contained_layers_end == n - done@[i].contained_layers_start,
        forall|i: int| 0 <= i < r@.len() ==> 1 <= (#[trigger] r@[i]).id <= r@.len(),
        forall|i: int, j: int| 0 <= i < j < r@.len() ==> (#[trigger] r@[i]).id != (#[trigger] r@[j]).id,
        forall|id: int| 1 <= id <= r@.len() ==> #[trigger] has_id(r@, id),
{
    let mut groups: Vec<PsdGroup> = Vec::new();
    let mut g: usize = 0;
    while g < done.len()
        invariant
            groups_ok(done@, n as int),
            g <= done@.len(),
            groups@.len() == g,
            forall|i: int|
                0 <= i < g ==> {
                    &&& (#[trigger] groups@[i]).contained_layers_start == n - done@[i].contained_layers_end
                    &&& groups@[i].contained_layers_end == n - done@[i].contained_layers_start
                    &&& groups@[i].id == done@[i].id
                    &&& groups@[i].name@ == done@[i].name@
                },
        decreases done@.len() - g,
    {
        let d = &done[g];
        let nm = copy_range(d.name.as_slice(), 0, d.name.len());
        assert(nm@ =~= d.name@);
        groups.push(
            PsdGroup {
                id: d.id,
                name: nm,
                contained_layers_start: n - d.contained_layers_end,
                contained_layers_end: n - d.contained_layers_start,
            },
        );
        g = g + 1;
    }
    proof {
        assert forall|i: int, j: int|
            0 <= i < groups@.len() && 0 <= j < groups@.len() && i != j implies nested_or_disjoint(
            #[trigger] groups@[i],
            #[trigger] groups@[j],
        ) by {
            assert(nested_or_disjoint(done@[i], done@[j]));
        }
        assert forall|id: int| 1 <= id <= groups@.len() implies #[trigger] has_id(groups@, id) by {
            assert(id_used(done@, Seq::<Pending>::empty(), id));
            let i = choose|i: int| 0 <= i < done@.len() && (#[trigger] done@[i]).id == id;
            assert(groups@[i].id == id);
        }
    }
    groups
}

/// The layers of `v` in reverse order.
fn reversed(v: Vec<PsdLayer>) -> (r: Vec<PsdLayer>)
    ensures
        r@.len() == v@.len(),
        forall|i: int| 0 <= i < r@.len() ==> #[trigger] r@[i] == v@[v@.len() - 1 - i],
{
    let ghost lv = v@;
    let mut rest = v;
    let mut out: Vec<PsdLayer> = Vec::new();
    while rest.len() > 0
        invariant
            rest@ == lv.subrange(0, rest@.len() as int),
            out@.len() + rest@.len() == lv.len(),
            forall|i: int| 0 <= i < out@.len() ==> #[trigger] out@[i] == lv[lv.len() - 1 - i],
        decreases rest@.len(),
    {
        let ghost before = rest@;
        match rest.pop() {
            Some(l) => {
                assert(l == before[before.len() - 1]);
                out.push(l);
                assert(rest@ =~= lv.subrange(0, rest@.len() as int));
            },
            None => {},
        }
    }
    out
}

proof fn lemma_leaves_before_nonneg(s: Seq<u8>, j: int)
    ensures
        0 <= leaves_before(s, j),
    decreases j,
{
    if j > 0 {
        lemma_leaves_before_nonneg(s, j - 1);
    }
}

proof fn lemma_leaf_step(s: Seq<u8>, before: Seq<PsdLayer>, after: Seq<PsdLayer>, r: int, l: PsdLayer)
    requires
        0 <= r,
        leaves_match(s, before, r),
        after == before.push(l),
        is_leaf(s, rec_start(s, r)),
        layer_from(s, l, rec_start(s, r)),
    ensures
        leaves_match(s, after, r + 1),
{
    reveal(leaves_match);
    assert(leaves_before(s, r + 1) == leaves_before(s, r) + 1);
    assert forall|j: int|
        0 <= j < r + 1 && is_leaf(s, #[trigger] rec_start(s, j)) implies leaves_before(s, j) < after.len()
        && layer_from(s, after[leaves_before(s, j)], rec_start(s, j)) by {
        if j < r {
            lemma_leaves_before_nonneg(s, j);
            assert(after[leaves_before(s, j)] == before[leaves_before(s, j)]);
        }
    }
}

proof fn lemma_marker_step(s: Seq<u8>, leaves: Seq<PsdLayer>, r: int)
    requires
        0 <= r,
        leaves_match(s, leaves, r),
        !is_leaf(s, rec_start(s, r)),
    ensures
        leaves_match(s, leaves, r + 1),
{
    reveal(leaves_match);
    assert(leaves_before(s, r + 1) == leaves_before(s, r));
}

proof fn lemma_leaves_start(s: Seq<u8>, leaves: Seq<PsdLayer>)
    requires
        leaves.len() == 0,
    ensures
        leaves_match(s, leaves, 0),
{
    reveal(leaves_match);
}

proof fn lemma_layers_reversed(s: Seq<u8>, lv: Seq<PsdLayer>, layers: Seq<PsdLayer>, n: int)
    requires
        leaves_match(s, lv, n),
        layers.len() == lv.len(),
        forall|i: int| 0 <= i < layers.len() ==> #[trigger] layers[i] == lv[lv.len() - 1 - i],
    ensures
        layers_match(s, layers, n),
{
    reveal(leaves_match);
    reveal(layers_match);
    assert forall|j: int|
        0 <= j < n && is_leaf(s, #[trigger] rec_start(s, j)) implies leaves_before(s, j) < layers.len() && layer_from(
        s,
        layers[layers.len() - 1 - leaves_before(s, j)],
        rec_start(s, j),
    ) by {
        lemma_leaves_before_nonneg(s, j);
        assert(layers[layers.len() - 1 - leaves_before(s, j)] == lv[leaves_before(s, j)]);
    }
}

/// The magnitude of a 16-bit layer count.
pub open spec fn abs(x: int) -> int {
    if x < 0 {
        -x
    } else {
        x
    }
}

/// The layers (bottom first), the groups and the group IDs in the order in
/// which their opening records come in the file, read from a layer and mask
/// information section of a canvas of `width` by `height` pixels. Each
/// record is a layer, or opens or closes a group, so the layers and twice
/// the groups add up to the record count; groups are numbered from 1 in the
/// order in which they open.
#[verifier::rlimit(100)]
pub fn parse_layer_section(
    s: &[u8],
    width: u32,
    height: u32,
    bps: usize,
    mode: ColorMode,
) -> (r: Result<(Vec<PsdLayer>, Vec<PsdGroup>, Vec<u32>), PsdLayerError>)
    requires
        1 <= width <= 30000,
        1 <= height <= 30000,
        width * height * 4 <= usize::MAX,
        1 <= bps <= 4,
    ensures
        r is Ok ==> {
            let layers = r->Ok_0.0@;
            &&& forall|i: int|
                0 <= i < layers.len() ==> {
                    &&& (#[trigger] layers[i]).wf()
                    &&& layers[i].psd_width == width
                    &&& layers[i].psd_height == height
                }
            &&& groups_ok(r->Ok_0.1@, layers.len() as int)
            &&& numbered(r->Ok_0.1@, r->Ok_0.2@)
            &&& s@.len() >= 4 && spec_u32(s@, 0) != 0 ==> layers_match(s@, layers, abs(spec_i16(s@, 4)))
            &&& s@.len() >= 4 && spec_u32(s@, 0) != 0 ==> layers_data(
                s@,
                layers,
                abs(spec_i16(s@, 4)),
                4 + spec_u32(s@, 0),
                bps as int,
                mode,
            )
            &&& forall|i: int|
                0 <= i < r->Ok_0.1@.len() ==> group_from_records(
                    s@,
                    #[trigger] r->Ok_0.1@[i],
                    layers.len() as int,
                    abs(spec_i16(s@, 4)),
                )
        },
        r is Ok <==> section_ok(s@, bps as int),
        r is Err ==> section_err(s@, bps as int) == Some(r->Err_0),
        s@.len() == 0 || (s@.len() >= 4 && spec_u32(s@, 0) == 0) ==> r is Ok && r->Ok_0.0@.len() == 0
            && r->Ok_0.1@.len() == 0,
        r is Ok && s@.len() >= 4 && spec_u32(s@, 0) != 0 ==> r->Ok_0.0@.len() + 2 * r->Ok_0.1@.len() == abs(
            spec_i16(s@, 4),
        ),
{
    let none = (Vec::new(), Vec::new(), Vec::new());
    if s.len() == 0 {
        return Ok(none);
    }
    if s.len() < 4 {
        return Err(PsdLayerError::Truncated);
    }
    let info_len = read_u32(s, 0) as usize;
    if info_len == 0 {
        return Ok(none);
    }
    if info_len > s.len() - 4 || info_len < 2 {
        return Err(PsdLayerError::Truncated);
    }
    let end = 4 + info_len;
    // a negative count only says that the first alpha channel holds the
    // merged image's transparency
    let raw_count = read_i16(s, 4);
    let count: usize = if raw_count < 0 {
        (-(raw_count as i32)) as usize
    } else {
        raw_count as usize
    };
    assert(count == abs(spec_i16(s@, 4)));
    let mut records: Vec<LayerRecord> = Vec::new();
    let mut pos: usize = 6;
    let mut r: usize = 0;
    while r < count
        invariant
            6 <= pos <= end <= s@.len(),
            end == 4 + spec_u32(s@, 0),
            s@.len() >= 4 && spec_u32(s@, 0) != 0,
            count <= 32768,
            count == abs(spec_i16(s@, 4)),
            r <= count,
            records@.len() == r,
            pos == rec_start(s@, r as int),
            forall|j: int| 0 <= j < r ==> record_ok(s@, #[trigger] rec_start(s@, j), end as int),
            first_record_err(s@, end as int, 0, count as int) == first_record_err(s@, end as int, r as int, count as int),
            spec_u32(s@, 0) <= s@.len() - 4,
            spec_u32(s@, 0) >= 2,
            forall|j: int| 0 <= j < r ==> rec_matches(s@, #[trigger] records@[j], rec_start(s@, j)),
        decreases count - r,
    {
        let (rec, next) = match parse_record(s, pos, end, r) {
            Ok(v) => v,
            Err(e) => {
                proof {
                    assert(!record_ok(s@, rec_start(s@, r as int), end as int));
                    assert(first_record_err(s@, end as int, r as int, count as int) == Some(e));
                    assert(!records_ok(s@, end as int, count as int));
                    assert(count == abs(spec_i16(s@, 4)));
                }
                return Err(e);
            },
        };
        let ghost before = records@;
        assert(rec_matches(s@, rec, pos as int)) by {
            reveal(rec_matches);
        }
        records.push(rec);
        proof {
            assert(rec_start(s@, r + 1) == rec_end(s@, rec_start(s@, r as int)));
            assert forall|j: int| 0 <= j < r + 1 implies rec_matches(s@, #[trigger] records@[j], rec_start(s@, j)) by {
                if j < r {
                    assert(records@[j] == before[j]);
                }
            }
        }
        pos = next;
        r = r + 1;
    }
    assert(records_ok(s@, end as int, count as int));
    assert(first_record_err(s@, end as int, count as int, count as int) is None);
    assert(section_err(s@, bps as int) == data_err(s@, 0, count as int, rec_start(s@, count as int), 0, end as int, bps as int));
    let mut leaves: Vec<PsdLayer> = Vec::new();
    proof {
        lemma_leaves_start(s@, leaves@);
    }
    let mut gs = GroupState { done: Vec::new(), stack: Vec::new(), ids: Vec::new(), next_id: 1 };
    assert(gs.wf(0)) by {
        reveal(GroupState::wf);
    }
    let ghost mut origins: Seq<(int, int)> = Seq::empty();
    proof {
        lemma_data_start(s@, records@.len() as int, end as int, bps as int, mode);
        lemma_data_at_step(s@, 0, records@.len() as int, end as int, bps as int);
        lemma_trace_start(s@);
        assert(gs.done@ =~= Seq::<PsdGroup>::empty() && gs.stack@ =~= Seq::<Pending>::empty());
    }
    let mut r: usize = 0;
    while r < records.len()
        invariant
            pos <= end <= s@.len(),
            records@.len() <= 32768,
            r <= records@.len(),
            records@.len() == abs(spec_i16(s@, 4)),
            s@.len() >= 4 && spec_u32(s@, 0) != 0,
            end == 4 + spec_u32(s@, 0),
            spec_u32(s@, 0) <= s@.len() - 4,
            spec_u32(s@, 0) >= 2,
            records_ok(s@, end as int, records@.len() as int),
            forall|j: int| 0 <= j < records@.len() ==> rec_matches(s@, #[trigger] records@[j], rec_start(s@, j)),
            leaves_match(s@, leaves@, r as int),
            section_err(s@, bps as int) == data_err(s@, 0, records@.len() as int, rec_start(s@, records@.len() as int), 0, end as int, bps as int),
            data_err(s@, 0, records@.len() as int, rec_start(s@, records@.len() as int), 0, end as int, bps as int) == data_err(s@, r as int, records@.len() as int, pos as int, gs.stack@.len() as int, end as int, bps as int),
            section_ok(s@, bps as int) == (data_from(s@, r as int, records@.len() as int, pos as int, end as int, bps as int)
                && balanced_from(s@, r as int, records@.len() as int, gs.stack@.len() as int)),
            gs.wf(leaves@.len() as int),
            traced(s@, gs.done@, origins, gs.stack@, r as int),
            leaves_data(s@, leaves@, r as int, records@.len() as int, end as int, bps as int, mode),
            pos == data_at(s@, r as int, records@.len() as int, end as int, bps as int),
            gs.next_id == opens_before(s@, r as int) + 1,
            leaves@.len() + 2 * gs.done@.len() + gs.stack@.len() == r,
            gs.next_id <= r + 1,
            1 <= width <= 30000,
            1 <= height <= 30000,
            width * height * 4 <= usize::MAX,
            1 <= bps <= 4,
            forall|i: int|
                0 <= i < leaves@.len() ==> {
                    &&& (#[trigger] leaves@[i]).wf()
                    &&& leaves@[i].psd_width == width
                    &&& leaves@[i].psd_height == height
                },
        decreases records@.len() - r,
    {
        let rec = &records[r];
        let ghost rp = rec_start(s@, r as int);
        proof {
            lemma_rec_fields(s@, records@[r as int], rp);
        }
        let (planes, next) = match read_planes(s, pos, end, rec, bps, r, Ghost(rp)) {
            Ok(v) => v,
            Err(e) => {
                return Err(e);
            },
        };
        proof {
            lemma_data_at_step(s@, r as int, records@.len() as int, end as int, bps as int);
        }
        pos = next;
        let k = leaves.len();
        if rec.divider == 1 || rec.divider == 2 {
            assert(is_open_rec(s@, rp)) by {
                reveal(is_open_rec);
            }
            let ghost st0 = gs.stack@;
            let nm = copy_range(rec.name.as_slice(), 0, rec.name.len());
            assert(nm@ =~= rec_name(s@, rp));
            proof {
                lemma_leaves_len(s@, leaves@, r as int);
            }
            gs.open(k, nm, Ghost(r as int));
            proof {
                lemma_trace_open(s@, gs.done@, origins, st0, gs.stack@, r as int);
                assert(!is_leaf(s@, rp)) by {
                    reveal(is_leaf);
                }
                lemma_marker_step(s@, leaves@, r as int);
                lemma_data_marker(s@, leaves@, r as int, records@.len() as int, end as int, bps as int, mode);
            }
        } else if rec.divider == 3 {
            assert(is_close_rec(s@, rp) && !is_open_rec(s@, rp)) by {
                reveal(is_close_rec);
                reveal(is_open_rec);
            }
            let ghost st0 = gs.stack@;
            let ghost d0 = gs.done@;
            proof {
                lemma_leaves_len(s@, leaves@, r as int);
            }
            if !gs.close(k) {
                return Err(PsdLayerError::UnbalancedGroups { layer: r });
            }
            proof {
                lemma_trace_close(s@, d0, gs.done@, origins, st0, gs.stack@, r as int);
                origins = origins.push((st0.last().rec@, r as int));
                assert(!is_leaf(s@, rp)) by {
                    reveal(is_leaf);
                }
                lemma_marker_step(s@, leaves@, r as int);
                lemma_data_marker(s@, leaves@, r as int, records@.len() as int, end as int, bps as int, mode);
            }
        } else {
            let layer = PsdLayer {
                name: copy_range(rec.name.as_slice(), 0, rec.name.len()),
                layer_top: rec.top,
                layer_left: rec.left,
                layer_bottom: rec.bottom,
                layer_right: rec.right,
                opacity: rec.opacity,
                visible: rec.flags & 2 == 0,
                clipping_mask: rec.clipping != 0,
                blend_mode: rec.blend_mode,
                planes,
                psd_width: width,
                psd_height: height,
                bps,
                color_mode: mode,
            };
            let ghost lbefore = leaves@;
            let ghost lg = layer;
            leaves.push(layer);
            proof {
                gs.lemma_grow(k as int);
                assert(lg.name@ =~= rec_name(s@, rp));
                assert(is_leaf(s@, rp) && layer_from(s@, lg, rp)) by {
                    reveal(is_leaf);
                    reveal(layer_from);
                }
                lemma_leaves_len(s@, lbefore, r as int);
                assert(layer_data(s@, lg, r as int, records@.len() as int, end as int, bps as int, mode)) by {
                    reveal(layer_data);
                }
                lemma_data_leaf(s@, lbefore, leaves@, r as int, lg, records@.len() as int, end as int, bps as int, mode);
                lemma_leaf_step(s@, lbefore, leaves@, r as int, lg);
                assert(!is_open_rec(s@, rp) && !is_close_rec(s@, rp)) by {
                    reveal(is_open_rec);
                    reveal(is_close_rec);
                }
                lemma_trace_leaf(s@, gs.done@, origins, gs.stack@, r as int);
            }
        }
        r = r + 1;
    }
    if gs.stack.len() != 0 {
        return Err(PsdLayerError::UnbalancedGroups { layer: records.len() });
    }
    let n = leaves.len();
    proof {
        gs.lemma_unpack(n as int);
    }
    assert(gs.stack@ =~= Seq::<Pending>::empty());
    let groups = flip_groups(&gs.done, n, Ghost(gs.next_id as int));
    let ghost lv = leaves@;
    let layers = reversed(leaves);
    proof {
        assert forall|i: int| 0 <= i < layers@.len() implies {
            &&& (#[trigger] layers@[i]).wf()
            &&& layers@[i].psd_width == width
            &&& layers@[i].psd_height == height
        } by {
            assert(layers@[i] == lv[n - 1 - i]);
        }
        lemma_layers_reversed(s@, lv, layers@, records@.len() as int);
        assert(numbered(groups@, gs.ids@));
        lemma_trace_end(s@, gs.done@, origins, gs.stack@, records@.len() as int);
        lemma_data_reversed(s@, lv, layers@, records@.len() as int, end as int, bps as int, mode);
        assert forall|i: int| 0 <= i < groups@.len() implies group_from_records(
            s@,
            #[trigger] groups@[i],
            layers@.len() as int,
            abs(spec_i16(s@, 4)),
        ) by {
            assert(done_ok(s@, gs.done@[i], origins[i], records@.len() as int));
            assert(group_core(s@, groups@[i], origins[i].0, origins[i].1));
        }
    }
    Ok((layers, groups, gs.ids))
}

} // verus!
