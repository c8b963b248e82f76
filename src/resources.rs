//! The image resources section: a sequence of `8BIM` blocks.
use vstd::prelude::*;

use crate::bytes::{copy_range, read_u16, read_u32, spec_u16, spec_u32};

verus! {

/// One image resource block: its ID and its payload bytes.
#[derive(Debug)]
pub struct ImageResource {
    pub id: u16,
    pub data: Vec<u8>,
}

/// Why the image resources section was rejected.
#[derive(Debug, Clone, Copy, PartialEq, Eq)]
pub enum ImageResourcesSectionError {
    /// A block does not start with `8BIM`.
    InvalidSignature,
    /// A block runs past the end of the section.
    Truncated,
}

pub open spec fn resource_view(r: ImageResource) -> (u16, Seq<u8>) {
    (r.id, r.data@)
}

pub open spec fn is_8bim(s: Seq<u8>, i: int) -> bool {
    s[i] == 0x38 && s[i + 1] == 0x42 && s[i + 2] == 0x49 && s[i + 3] == 0x4d
}

/// Bytes taken by a Pascal name whose length byte is `n`, padded to even.
pub open spec fn name_field(n: int) -> int {
    if (n + 1) % 2 == 0 {
        n + 1
    } else {
        n + 2
    }
}

pub open spec fn cons_ok(
    x: (u16, Seq<u8>),
    rest: Result<Seq<(u16, Seq<u8>)>, ImageResourcesSectionError>,
) -> Result<Seq<(u16, Seq<u8>)>, ImageResourcesSectionError> {
    match rest {
        Ok(r) => Ok(seq![x] + r),
        Err(e) => Err(e),
    }
}

/// The blocks of `s[pos..]`: each is `8BIM`, a 16-bit ID, a Pascal name
/// padded to even length, a 32-bit data length and the data, padded to even.
pub open spec fn resources_from(s: Seq<u8>, pos: int) -> Result<Seq<(u16, Seq<u8>)>, ImageResourcesSectionError>
    decreases s.len() - pos,
{
    if pos < 0 || pos >= s.len() {
        Ok(Seq::empty())
    } else if pos + 7 > s.len() {
        Err(ImageResourcesSectionError::Truncated)
    } else if !is_8bim(s, pos) {
        Err(ImageResourcesSectionError::InvalidSignature)
    } else {
        let dl = pos + 6 + name_field(s[pos + 6] as int);
        if dl + 4 > s.len() {
            Err(ImageResourcesSectionError::Truncated)
        } else {
            let ds = dl + 4;
            let n = spec_u32(s, dl);
            if ds + n + n % 2 > s.len() {
                Err(ImageResourcesSectionError::Truncated)
            } else {
                cons_ok((spec_u16(s, pos + 4) as u16, s.subrange(ds, ds + n)), resources_from(s, ds + n + n % 2))
            }
        }
    }
}

/// Parses the blocks of an image resources section.
pub fn parse_resources(s: &[u8]) -> (r: Result<Vec<ImageResource>, ImageResourcesSectionError>)
    ensures
        match (r, resources_from(s@, 0)) {
            (Ok(v), Ok(w)) => v@.map_values(|x: ImageResource| resource_view(x)) == w,
            (Err(e), Err(f)) => e == f,
            _ => false,
        },
{
    let mut out: Vec<ImageResource> = Vec::new();
    let mut pos: usize = 0;
    let total = s.len();
    proof {
        assert(out@.map_values(|x: ImageResource| resource_view(x)) + resources_from(s@, 0)->Ok_0 =~= resources_from(s@, 0)->Ok_0);
    }
    while pos < total
        invariant
            total == s@.len(),
            pos <= s@.len() <= usize::MAX,
            resources_from(s@, 0) == match resources_from(s@, pos as int) {
                Ok(r) => Ok(out@.map_values(|x: ImageResource| resource_view(x)) + r),
                Err(e) => Err(e),
            },
        decreases s@.len() - pos,
    {
        if s.len() - pos < 7 {
            return Err(ImageResourcesSectionError::Truncated);
        }
        if !(s[pos] == 0x38 && s[pos + 1] == 0x42 && s[pos + 2] == 0x49 && s[pos + 3] == 0x4d) {
            return Err(ImageResourcesSectionError::InvalidSignature);
        }
        let id = read_u16(s, pos + 4);
        let nl = s[pos + 6] as usize;
        let nf: usize = if (nl + 1) % 2 == 0 { nl + 1 } else { nl + 2 };
        if s.len() - pos - 6 < nf + 4 {
            return Err(ImageResourcesSectionError::Truncated);
        }
        let dl = pos + 6 + nf;
        let ds = dl + 4;
        let n = read_u32(s, dl) as usize;
        let pad: usize = n % 2;
        if s.len() - ds < n || s.len() - ds - n < pad {
            return Err(ImageResourcesSectionError::Truncated);
        }
        let data = copy_range(s, ds, ds + n);
        let ghost old_view = out@.map_values(|x: ImageResource| resource_view(x));
        let item = ImageResource { id, data };
        out.push(item);
        proof {
            let rest = resources_from(s@, ds + n + pad);
            assert(out@.map_values(|x: ImageResource| resource_view(x)) =~= old_view + seq![(id, s@.subrange(ds as int, ds + n))]);
            if let Ok(r) = rest {
                assert(old_view + (seq![(id, s@.subrange(ds as int, ds + n))] + r) =~= (old_view + seq![(id, s@.subrange(ds as int, ds + n))]) + r);
            }
        }
        pos = ds + n + pad;
    }
    proof {
        assert(out@.map_values(|x: ImageResource| resource_view(x)) + Seq::empty() =~= out@.map_values(|x: ImageResource| resource_view(x)));
    }
    Ok(out)
}

} // verus!
