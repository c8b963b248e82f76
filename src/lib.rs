//! Decoding of layered Photoshop documents and compositing of their layers.
use std::collections::HashMap;
use vstd::prelude::*;

pub mod blend;
pub mod bytes;
pub mod channel;
pub mod compose;
pub mod header;
pub mod image_data;
pub mod layer;
pub mod layer_section;
pub mod resources;

pub use crate::channel::{ChannelError, PsdChannelCompression};
pub use crate::compose::ChannelPlanes;
pub use crate::header::{ColorMode, FileHeaderSectionError, PsdDepth};
pub use crate::image_data::ImageDataSectionError;
pub use crate::layer::{PsdGroup, PsdLayer};
pub use crate::layer_section::PsdLayerError;
pub use crate::resources::{ImageResource, ImageResourcesSectionError};

use crate::blend::{apply_opacity, blend_pixels, opacity_spec, over_spec, over_weight, Px};
use crate::bytes::{spec_i16, spec_u16, spec_u32};
use crate::channel::{compression_of, decode_plane};
use crate::compose::{planes_rgba, rgba_of_planes};
use crate::header::{header_spec, sample_bytes, split_spec, FileHeaderSection, MajorSections};
use crate::image_data::{parse_image_data, planes_match};
use crate::layer_section::{abs, group_from_records, layers_data, layers_match, numbered, parse_layer_section, section_err, section_ok};
use crate::resources::{parse_resources, resource_view, resources_from};
use vstd::string::{StrSliceExecFns, StringSliceAdditionalSpecFns};

verus! {

/// Why a document could not be decoded.
#[derive(Debug, Clone, Copy, PartialEq, Eq)]
#[non_exhaustive]
pub enum PsdError {
    /// The header or the section framing is invalid.
    HeaderError(FileHeaderSectionError),
    /// The layer and mask information section is invalid.
    LayerError(PsdLayerError),
    /// The image data section is invalid.
    ImageError(ImageDataSectionError),
    /// The image resources section is invalid.
    ResourceError(ImageResourcesSectionError),
}

/// A decoded document.
#[derive(Debug)]
pub struct Psd {
    header: FileHeaderSection,
    resources: Vec<ImageResource>,
    layers: Vec<PsdLayer>,
    groups: HashMap<u32, PsdGroup>,
    group_ids: Vec<u32>,
    compression: PsdChannelCompression,
    image: ChannelPlanes,
}

/// Whether a layer takes part in compositing at all: it is visible and not
/// fully transparent, or it is a clipping mask.
pub open spec fn eligible(l: PsdLayer) -> bool {
    (l.opacity > 0 && l.visible) || l.clipping_mask
}

/// The stacking indices below `i` of the layers to composite, from the top
/// down: those that are eligible and selected.
pub open spec fn candidates(layers: Seq<PsdLayer>, sel: Seq<bool>, i: int) -> Seq<usize>
    decreases i,
{
    if i <= 0 {
        Seq::empty()
    } else if eligible(layers[i - 1]) && sel[i - 1] {
        seq![(i - 1) as usize] + candidates(layers, sel, i - 1)
    } else {
        candidates(layers, sel, i - 1)
    }
}

/// Channel `c` of a pixel.
pub open spec fn chan(p: Px, c: int) -> u8 {
    if c == 0 {
        p.0
    } else if c == 1 {
        p.1
    } else if c == 2 {
        p.2
    } else {
        p.3
    }
}

/// Group ranges lie within `n` layers, and two distinct groups are either
/// disjoint or one holds the other.
pub open spec fn groups_ok(groups: Seq<PsdGroup>, n: int) -> bool {
    &&& forall|i: int|
        0 <= i < groups.len() ==> (#[trigger] groups[i]).contained_layers_start <= groups[i].contained_layers_end <= n
    &&& forall|i: int, j: int|
        0 <= i < groups.len() && 0 <= j < groups.len() && i != j ==> nested_or_disjoint(
            #[trigger] groups[i],
            #[trigger] groups[j],
        )
}

/// The groups of a document keyed by ID: the keys are exactly `1..=count`,
/// each group stands under its own ID with a range within `n` layers, and
/// two distinct groups are disjoint or one holds the other.
pub open spec fn group_map_ok(m: Map<u32, PsdGroup>, n: int, count: int) -> bool {
    &&& forall|k: u32|
        #[trigger] m.contains_key(k) ==> {
            &&& m[k].id == k
            &&& 1 <= k <= count
            &&& m[k].contained_layers_start <= m[k].contained_layers_end <= n
        }
    &&& forall|k: u32| 1 <= k <= count ==> #[trigger] m.contains_key(k)
    &&& forall|k1: u32, k2: u32|
        #[trigger] m.contains_key(k1) && #[trigger] m.contains_key(k2) && k1 != k2 ==> nested_or_disjoint(m[k1], m[k2])
}

pub open spec fn nested_or_disjoint(a: PsdGroup, b: PsdGroup) -> bool {
    ||| a.contained_layers_end <= b.contained_layers_start
    ||| b.contained_layers_end <= a.contained_layers_start
    ||| (a.contained_layers_start <= b.contained_layers_start && b.contained_layers_end <= a.contained_layers_end)
    ||| (b.contained_layers_start <= a.contained_layers_start && a.contained_layers_end <= b.contained_layers_end)
}

impl Psd {
    pub closed spec fn width_spec(&self) -> int {
        self.header.width as int
    }

    pub closed spec fn height_spec(&self) -> int {
        self.header.height as int
    }

    pub closed spec fn depth_spec(&self) -> PsdDepth {
        self.header.depth
    }

    pub closed spec fn color_mode_spec(&self) -> ColorMode {
        self.header.color_mode
    }

    pub closed spec fn compression_spec(&self) -> PsdChannelCompression {
        self.compression
    }

    pub closed spec fn image_view(&self) -> ChannelPlanes {
        self.image
    }

    pub closed spec fn resources_view(&self) -> Seq<ImageResource> {
        self.resources@
    }

    pub closed spec fn group_ids_view(&self) -> Seq<u32> {
        self.group_ids@
    }

    pub closed spec fn layers_view(&self) -> Seq<PsdLayer> {
        self.layers@
    }

    pub closed spec fn groups_view(&self) -> Map<u32, PsdGroup> {
        self.groups@
    }

    /// The document's invariant: a canvas of 1 to 30,000 pixels each way,
    /// whole-canvas planes and layers sized to it, and well-formed groups.
    pub closed spec fn wf(&self) -> bool {
        let w = self.header.width as int;
        let h = self.header.height as int;
        &&& 1 <= w <= 30000
        &&& 1 <= h <= 30000
        &&& w * h * 4 <= usize::MAX
        &&& self.image.sized(w * h * sample_bytes(self.header.depth))
        &&& forall|i: int|
            0 <= i < self.layers@.len() ==> {
                &&& (#[trigger] self.layers@[i]).wf()
                &&& self.layers@[i].psd_width == w
                &&& self.layers@[i].psd_height == h
            }
        &&& group_map_ok(self.groups@, self.layers@.len() as int, self.group_ids@.len() as int)
        &&& forall|i: int| 0 <= i < self.group_ids@.len() ==> #[trigger] self.group_ids@[i] == i + 1
    }

    /// The whole-canvas image as interleaved RGBA.
    pub closed spec fn rgba_view(&self) -> Seq<u8> {
        planes_rgba(
            self.image,
            self.header.color_mode,
            sample_bytes(self.header.depth),
            self.header.width * self.header.height,
        )
    }

    /// The color at `(x, y)` of the layers `cands[k..]`, composited from the
    /// top down: a layer that does not cover the position gives way to the
    /// ones below; one that covers it gives its pixel with alpha scaled by its
    /// opacity, alone if that is fully opaque at full opacity, else over the
    /// color below.
    pub closed spec fn resolve(&self, cands: Seq<usize>, k: int, x: int, y: int) -> Px
        decreases cands.len() - k,
    {
        if k < 0 || k >= cands.len() {
            (0, 0, 0, 0)
        } else {
            let l = self.layers@[cands[k] as int];
            if !l.covers(x, y) {
                self.resolve(cands, k + 1, x, y)
            } else {
                let p = opacity_spec(l.pixel_spec(x, y), l.opacity);
                if p.3 == 255 && l.opacity == 255 {
                    p
                } else if k + 1 < cands.len() {
                    over_spec(p, self.resolve(cands, k + 1, x, y))
                } else {
                    p
                }
            }
        }
    }

    /// The flattened image for a selection of layers (`sel[i]` for the layer
    /// with stacking index `i`): the whole-canvas image when there are no
    /// layers, else each pixel resolved down the eligible selected layers.
    pub closed spec fn flatten_view(&self, sel: Seq<bool>) -> Seq<u8> {
        let w = self.header.width as int;
        if self.layers@.len() == 0 {
            self.rgba_view()
        } else {
            let c = candidates(self.layers@, sel, self.layers@.len() as int);
            Seq::new(
                (w * self.header.height * 4) as nat,
                |i: int| chan(self.resolve(c, 0, (i / 4) % w, (i / 4) / w), i % 4),
            )
        }
    }
}

/// The layers and twice the groups add up to the records of the layer
/// section `ls`, and the layers are its plain records in reverse file
/// order; there are none when it or its layer info is empty.
pub open spec fn layers_counted(psd: Psd, ls: Seq<u8>) -> bool {
    if ls.len() == 0 || (ls.len() >= 4 && spec_u32(ls, 0) == 0) {
        psd.layers_view().len() == 0 && psd.group_ids_view().len() == 0
    } else {
        ls.len() >= 4 ==> {
            &&& psd.layers_view().len() + 2 * psd.group_ids_view().len() == abs(spec_i16(ls, 4))
            &&& layers_match(ls, psd.layers_view(), abs(spec_i16(ls, 4)))
        }
    }
}

/// Every group stems from the opening and closing divider records of the
/// layer section `ls` that bracket it: its ID, name and range of stacking
/// indices are those the records give.
pub open spec fn groups_from_file(psd: Psd, ls: Seq<u8>) -> bool {
    ls.len() >= 4 && spec_u32(ls, 0) != 0 ==> forall|k: u32|
        #[trigger] psd.groups_view().contains_key(k) ==> group_from_records(
            ls,
            psd.groups_view()[k],
            psd.layers_view().len() as int,
            abs(spec_i16(ls, 4)),
        )
}

/// Every layer holds the samples of its record in the layer section `ls`:
/// its sample width and color mode are the header's, and its planes are what
/// its channel data decodes to.
pub open spec fn layer_samples_from_file(psd: Psd, ls: Seq<u8>, h: FileHeaderSection) -> bool {
    ls.len() >= 4 && spec_u32(ls, 0) != 0 ==> layers_data(
        ls,
        psd.layers_view(),
        abs(spec_i16(ls, 4)),
        4 + spec_u32(ls, 0),
        sample_bytes(h.depth),
        h.color_mode,
    )
}

/// The image data section `d` decodes under the header `h`.
pub open spec fn image_decodes(d: Seq<u8>, h: FileHeaderSection) -> bool {
    let bps = sample_bytes(h.depth);
    &&& d.len() >= 2
    &&& h.channel_count * h.height * h.width * bps <= usize::MAX
    &&& decode_plane(spec_u16(d, 0), d.skip(2), h.channel_count * h.height, h.width * bps) is Ok
}

/// The error that the image data section `d` gives under the header `h`
/// when it does not decode.
pub open spec fn image_err(d: Seq<u8>, h: FileHeaderSection) -> ImageDataSectionError {
    let bps = sample_bytes(h.depth);
    if d.len() < 2 {
        ImageDataSectionError::Truncated
    } else if h.channel_count * h.height * h.width * bps > usize::MAX {
        ImageDataSectionError::TooLarge
    } else {
        ImageDataSectionError::Channel(
            decode_plane(spec_u16(d, 0), d.skip(2), h.channel_count * h.height, h.width * bps)->Err_0,
        )
    }
}

/// The canvas planes and compression are those that the image data section
/// `d` decodes to under the header `h`.
pub open spec fn image_decoded(psd: Psd, d: Seq<u8>, h: FileHeaderSection) -> bool {
    let bps = sample_bytes(h.depth);
    let tag = spec_u16(d, 0);
    let planes = decode_plane(tag, d.skip(2), h.channel_count * h.height, h.width * bps);
    &&& d.len() >= 2
    &&& planes is Ok
    &&& psd.compression_spec() == compression_of(tag).unwrap()
    &&& planes_match(psd.image_view(), planes->Ok_0, h.width * h.height * bps, h.channel_count as int, h.color_mode)
}

impl Psd {
    /// Decodes a document from the bytes of a file. The framing and the
    /// header are checked first, then the layer and mask information, the
    /// image data and the image resources; the first failure is returned,
    /// and a file in which all of them are sound decodes.
    pub fn from_bytes(bytes: &[u8]) -> (r: Result<Psd, PsdError>)
        ensures
            split_spec(bytes@) is Err ==> r == Err::<Psd, PsdError>(PsdError::HeaderError(split_spec(bytes@)->Err_0)),
            split_spec(bytes@) is Ok && header_spec(bytes@) is Err ==> r == Err::<Psd, PsdError>(
                PsdError::HeaderError(header_spec(bytes@)->Err_0),
            ),
            ({
                let m = split_spec(bytes@)->Ok_0;
                let h = header_spec(bytes@)->Ok_0;
                &&& split_spec(bytes@) is Ok
                &&& header_spec(bytes@) is Ok
                &&& h.width * h.height * 4 <= usize::MAX
                &&& section_ok(bytes@.subrange(m.layers_start as int, m.layers_end as int), sample_bytes(h.depth))
                &&& image_decodes(bytes@.subrange(m.image_start as int, bytes@.len() as int), h)
                &&& resources_from(bytes@.subrange(m.resources_start as int, m.resources_end as int), 0) is Ok
            }) ==> r is Ok,
            split_spec(bytes@) is Ok && header_spec(bytes@) is Ok && header_spec(bytes@)->Ok_0.width
                * header_spec(bytes@)->Ok_0.height * 4 > usize::MAX ==> r == Err::<Psd, PsdError>(
                PsdError::HeaderError(FileHeaderSectionError::TooLarge),
            ),
            split_spec(bytes@) is Ok && header_spec(bytes@) is Ok && header_spec(bytes@)->Ok_0.width
                * header_spec(bytes@)->Ok_0.height * 4 <= usize::MAX ==> ({
                let m = split_spec(bytes@)->Ok_0;
                let h = header_spec(bytes@)->Ok_0;
                let ls = bytes@.subrange(m.layers_start as int, m.layers_end as int);
                let d = bytes@.subrange(m.image_start as int, bytes@.len() as int);
                let rs = resources_from(bytes@.subrange(m.resources_start as int, m.resources_end as int), 0);
                &&& (!section_ok(ls, sample_bytes(h.depth)) ==> section_err(ls, sample_bytes(h.depth)) is Some && r
                    == Err::<Psd, PsdError>(PsdError::LayerError(section_err(ls, sample_bytes(h.depth))->Some_0)))
                &&& (section_ok(ls, sample_bytes(h.depth)) && !image_decodes(d, h) ==> r == Err::<Psd, PsdError>(
                    PsdError::ImageError(image_err(d, h)),
                ))
                &&& (section_ok(ls, sample_bytes(h.depth)) && image_decodes(d, h) && rs is Err ==> r == Err::<
                    Psd,
                    PsdError,
                >(PsdError::ResourceError(rs->Err_0)))
            }),
            r is Ok ==> {
                let m = split_spec(bytes@)->Ok_0;
                let h = header_spec(bytes@)->Ok_0;
                let psd = r->Ok_0;
                &&& split_spec(bytes@) is Ok
                &&& header_spec(bytes@) is Ok
                &&& psd.wf()
                &&& psd.width_spec() == h.width
                &&& psd.height_spec() == h.height
                &&& psd.depth_spec() == h.depth
                &&& psd.color_mode_spec() == h.color_mode
                &&& resources_from(bytes@.subrange(m.resources_start as int, m.resources_end as int), 0) == Ok::<
                    Seq<(u16, Seq<u8>)>,
                    ImageResourcesSectionError,
                >(psd.resources_view().map_values(|x: ImageResource| resource_view(x)))
                &&& layers_counted(psd, bytes@.subrange(m.layers_start as int, m.layers_end as int))
                &&& section_ok(bytes@.subrange(m.layers_start as int, m.layers_end as int), sample_bytes(h.depth))
                &&& groups_from_file(psd, bytes@.subrange(m.layers_start as int, m.layers_end as int))
                &&& layer_samples_from_file(psd, bytes@.subrange(m.layers_start as int, m.layers_end as int), h)
                &&& image_decoded(psd, bytes@.subrange(m.image_start as int, bytes@.len() as int), h)
            },
    {
        let m = match MajorSections::from_bytes(bytes) {
            Ok(m) => m,
            Err(e) => {
                return Err(PsdError::HeaderError(e));
            },
        };
        let header = match FileHeaderSection::from_bytes(bytes) {
            Ok(h) => h,
            Err(e) => {
                return Err(PsdError::HeaderError(e));
            },
        };
        let w = header.width;
        let h = header.height;
        assert(w as int * h as int * 4 <= 3600000000) by (nonlinear_arith)
            requires
                1 <= w <= 30000,
                1 <= h <= 30000,
        ;
        if w as u64 * h as u64 * 4 > usize::MAX as u64 {
            return Err(PsdError::HeaderError(FileHeaderSectionError::TooLarge));
        }
        let bps = crate::header::depth_bytes(header.depth);
        let layer_bytes = bytes.split_at(m.layers_end).0.split_at(m.layers_start).1;
        assert(layer_bytes@ =~= bytes@.subrange(m.layers_start as int, m.layers_end as int));
        let (layers, group_list, group_ids) = match parse_layer_section(layer_bytes, w, h, bps, header.color_mode) {
            Ok(v) => v,
            Err(e) => {
                return Err(PsdError::LayerError(e));
            },
        };
        let image_bytes = bytes.split_at(m.image_start).1;
        assert(image_bytes@ =~= bytes@.subrange(m.image_start as int, bytes@.len() as int));
        let (compression, image) = match parse_image_data(
            image_bytes,
            w,
            h,
            bps,
            header.channel_count,
            header.color_mode,
        ) {
            Ok(v) => v,
            Err(e) => {
                return Err(PsdError::ImageError(e));
            },
        };
        let res_bytes = bytes.split_at(m.resources_end).0.split_at(m.resources_start).1;
        assert(res_bytes@ =~= bytes@.subrange(m.resources_start as int, m.resources_end as int));
        let resources = match parse_resources(res_bytes) {
            Ok(v) => v,
            Err(e) => {
                return Err(PsdError::ResourceError(e));
            },
        };
        let ghost gl = group_list@;
        let groups = group_map(group_list, Ghost(layers@.len() as int), Ghost(group_ids@));
        assert forall|k: u32| #[trigger] groups@.contains_key(k) implies group_from_records(
            layer_bytes@,
            groups@[k],
            layers@.len() as int,
            abs(spec_i16(layer_bytes@, 4)),
        ) || !(layer_bytes@.len() >= 4 && spec_u32(layer_bytes@, 0) != 0) by {
            let j = choose|j: int| 0 <= j < gl.len() && groups@[k] == gl[j];
        }
        Ok(Psd { header, resources, layers, groups, group_ids, compression, image })
    }
}

/// Whether two byte sequences are equal, compared element by element.
fn same_bytes(a: &Vec<u8>, b: &Vec<u8>) -> (r: bool)
    ensures
        r == (a@ == b@),
{
    if a.len() != b.len() {
        return false;
    }
    let mut i: usize = 0;
    while i < a.len()
        invariant
            a@.len() == b@.len(),
            i <= a@.len(),
            forall|j: int| 0 <= j < i ==> a@[j] == b@[j],
        decreases a@.len() - i,
    {
        if a[i] != b[i] {
            return false;
        }
        i = i + 1;
    }
    assert(a@ =~= b@);
    true
}

impl Psd {
    /// The lowest layer whose name is `name`, if any.
    pub fn layer_by_name(&self, name: &str) -> (r: Option<&PsdLayer>)
        ensures
            r is None ==> forall|i: int| 0 <= i < self.layers_view().len() ==> #[trigger] self.layers_view()[i].name@ != name.spec_bytes(),
            r is Some ==> exists|i: int|
                0 <= i < self.layers_view().len() && *r->Some_0 == #[trigger] self.layers_view()[i] && self.layers_view()[i].name@ == name.spec_bytes()
                    && forall|j: int| 0 <= j < i ==> #[trigger] self.layers_view()[j].name@ != name.spec_bytes(),
    {
        let wanted = name.as_bytes_vec();
        let mut i: usize = 0;
        while i < self.layers.len()
            invariant
                wanted@ == name.spec_bytes(),
                i <= self.layers@.len(),
                forall|j: int| 0 <= j < i ==> #[trigger] self.layers@[j].name@ != name.spec_bytes(),
            decreases self.layers@.len() - i,
        {
            if same_bytes(&self.layers[i].name, &wanted) {
                return Some(&self.layers[i]);
            }
            i = i + 1;
        }
        None
    }

    /// The group IDs in the order in which the groups open in the file.
    pub fn group_ids_in_order(&self) -> (r: &Vec<u32>)
        ensures
            r@ == self.group_ids_view(),
    {
        &self.group_ids
    }

    /// The layers of the group whose ID is `id`, bottom first.
    pub fn get_group_sub_layers(&self, id: &u32) -> (r: Option<&[PsdLayer]>)
        requires
            self.wf(),
        ensures
            r is None <==> !self.groups_view().contains_key(*id),
            r is Some ==> r->Some_0@ == self.layers_view().subrange(
                self.groups_view()[*id].contained_layers_start as int,
                self.groups_view()[*id].contained_layers_end as int,
            ),
    {
        broadcast use vstd::std_specs::hash::group_hash_axioms;

        match self.groups.get(id) {
            Some(g) => {
                assert(self.groups@.contains_key(*id));
                Some(&self.layers.as_slice()[g.contained_layers_start..g.contained_layers_end])
            },
            None => None,
        }
    }
}

/// Keys the groups by their IDs.
fn group_map(groups: Vec<PsdGroup>, n: Ghost<int>, ids: Ghost<Seq<u32>>) -> (r: HashMap<u32, PsdGroup>)
    requires
        groups_ok(groups@, n@),
        numbered(groups@, ids@),
    ensures
        group_map_ok(r@, n@, ids@.len() as int),
        forall|k: u32| #[trigger] r@.contains_key(k) ==> exists|j: int| 0 <= j < groups@.len() && r@[k] == groups@[j],
{
    broadcast use vstd::std_specs::hash::group_hash_axioms;

    let ghost all = groups@;
    let mut rest = groups;
    let mut m: HashMap<u32, PsdGroup> = HashMap::new();
    while rest.len() > 0
        invariant
            groups_ok(all, n@),
            numbered(all, ids@),
            rest@.len() <= all.len(),
            forall|j: int| 0 <= j < rest@.len() ==> #[trigger] rest@[j] == all[j],
            forall|j: int|
                rest@.len() <= j < all.len() ==> #[trigger] m@.contains_key(all[j].id) && m@[all[j].id] == all[j],
            forall|k: u32|
                #[trigger] m@.contains_key(k) ==> exists|j: int|
                    rest@.len() <= j < all.len() && #[trigger] all[j].id == k,
        decreases rest@.len(),
    {
        let ghost before = rest@;
        let g = rest.pop().unwrap();
        let ghost jg = before.len() - 1;
        assert(g == all[jg]);
        assert(forall|j: int| 0 <= j < rest@.len() ==> #[trigger] rest@[j] == before[j]);
        m.insert(g.id, g);
        assert forall|j: int| rest@.len() <= j < all.len() implies #[trigger] m@.contains_key(all[j].id) && m@[all[j].id] == all[j] by {
            if j != jg {
                assert(all[j].id != all[jg].id);
            }
        }
        assert forall|k: u32| #[trigger] m@.contains_key(k) implies exists|j: int|
            rest@.len() <= j < all.len() && #[trigger] all[j].id == k by {
            if k == all[jg].id {
                assert(all[jg].id == k);
            }
        }
    }
    assert forall|k: u32| #[trigger] m@.contains_key(k) implies {
        &&& m@[k].id == k
        &&& 1 <= k <= ids@.len()
        &&& m@[k].contained_layers_start <= m@[k].contained_layers_end <= n@
    } by {
        let j = choose|j: int| 0 <= j < all.len() && #[trigger] all[j].id == k;
        assert(m@[all[j].id] == all[j]);
    }
    assert forall|k: u32| #[trigger] m@.contains_key(k) implies exists|j: int| 0 <= j < all.len() && m@[k] == all[j] by {
        let j = choose|j: int| 0 <= j < all.len() && #[trigger] all[j].id == k;
        assert(m@[all[j].id] == all[j]);
    }
    assert forall|k: u32| 1 <= k <= ids@.len() implies #[trigger] m@.contains_key(k) by {
        assert(crate::layer_section::has_id(all, k as int));
        let j = choose|j: int| 0 <= j < all.len() && (#[trigger] all[j]).id == k as int;
        assert(m@.contains_key(all[j].id));
    }
    assert forall|k1: u32, k2: u32|
        #[trigger] m@.contains_key(k1) && #[trigger] m@.contains_key(k2) && k1 != k2 implies nested_or_disjoint(
        m@[k1],
        m@[k2],
    ) by {
        let j1 = choose|j: int| 0 <= j < all.len() && #[trigger] all[j].id == k1;
        let j2 = choose|j: int| 0 <= j < all.len() && #[trigger] all[j].id == k2;
        assert(m@[all[j1].id] == all[j1]);
        assert(m@[all[j2].id] == all[j2]);
        assert(nested_or_disjoint(all[j1], all[j2]));
    }
    m
}

impl Psd {
    /// The width of the canvas.
    pub fn width(&self) -> (r: u32)
        ensures
            r == self.width_spec(),
    {
        self.header.width
    }

    /// The height of the canvas.
    pub fn height(&self) -> (r: u32)
        ensures
            r == self.height_spec(),
    {
        self.header.height
    }

    /// The number of bits per channel.
    pub fn depth(&self) -> (r: PsdDepth)
        ensures
            r == self.depth_spec(),
    {
        self.header.depth
    }

    /// The color mode of the document.
    pub fn color_mode(&self) -> (r: ColorMode)
        ensures
            r == self.color_mode_spec(),
    {
        self.header.color_mode
    }

    /// All layers, bottom first.
    pub fn layers(&self) -> (r: &Vec<PsdLayer>)
        ensures
            r@ == self.layers_view(),
    {
        &self.layers
    }

    /// The layer with stacking index `idx` (0 is the bottom layer).
    pub fn layer_by_idx(&self, idx: usize) -> (r: &PsdLayer)
        requires
            idx < self.layers_view().len(),
        ensures
            *r == self.layers_view()[idx as int],
    {
        &self.layers[idx]
    }

    /// All groups, keyed by ID.
    pub fn groups(&self) -> (r: &HashMap<u32, PsdGroup>)
        ensures
            r@ == self.groups_view(),
    {
        &self.groups
    }

    /// The whole-canvas image as interleaved RGBA: `[R, G, B, A, R, G, B, A, ...]`.
    pub fn rgba(&self) -> (r: Vec<u8>)
        requires
            self.wf(),
        ensures
            r@ == self.rgba_view(),
            r@.len() == self.width_spec() * self.height_spec() * 4,
    {
        let n = self.header.width as usize * self.header.height as usize;
        let bps = crate::header::depth_bytes(self.header.depth);
        rgba_of_planes(&self.image, self.header.color_mode, bps, n)
    }

    /// The compression of the whole-canvas image data.
    pub fn compression(&self) -> (r: &PsdChannelCompression)
        ensures
            *r == self.compression_spec(),
    {
        &self.compression
    }

    /// The blocks of the image resources section, in file order.
    pub fn resources(&self) -> (r: &Vec<ImageResource>)
        ensures
            r@ == self.resources_view(),
    {
        &self.resources
    }

    /// The color at `(x, y)` of the layers `cands[k..]`, composited from the top down.
    fn flattened_pixel(&self, k: usize, x: u32, y: u32, cands: &Vec<usize>) -> (r: Px)
        requires
            self.wf(),
            k < cands@.len(),
            forall|j: int| 0 <= j < cands@.len() ==> #[trigger] cands@[j] < self.layers@.len(),
        ensures
            r == self.resolve(cands@, k as int, x as int, y as int),
        decreases cands@.len() - k,
    {
        let layer = &self.layers[cands[k]];
        let xi = x as i64;
        let yi = y as i64;
        if !(layer.layer_left as i64 <= xi && xi < layer.layer_right as i64 && layer.layer_top as i64 <= yi && yi
            < layer.layer_bottom as i64) {
            if k < cands.len() - 1 {
                return self.flattened_pixel(k + 1, x, y, cands);
            } else {
                assert(self.resolve(cands@, k + 1, x as int, y as int) == (0u8, 0u8, 0u8, 0u8));
                return (0, 0, 0, 0);
            }
        }
        let p = apply_opacity(layer.pixel(x, y), layer.opacity);
        if p.3 == 255 && layer.opacity == 255 {
            p
        } else if k < cands.len() - 1 {
            let below = self.flattened_pixel(k + 1, x, y, cands);
            blend_pixels(p, below)
        } else {
            p
        }
    }

    /// Flattens the eligible layers that `sel` selects (`sel[i]` for stacking
    /// index `i`) into one RGBA image of the canvas's size. Every layer's
    /// planes were decoded once when the document was read, so each pixel is
    /// read straight from them and no state outlives the call.
    pub fn flatten_selected(&self, sel: &Vec<bool>) -> (r: Vec<u8>)
        requires
            self.wf(),
            sel@.len() == self.layers_view().len(),
        ensures
            r@ == self.flatten_view(sel@),
    {
        if self.layers.len() == 0 {
            return self.rgba();
        }
        let n = self.layers.len();
        let mut cands: Vec<usize> = Vec::new();
        let mut i: usize = n;
        while i > 0
            invariant
                i <= n == self.layers@.len() == sel@.len(),
                cands@ + candidates(self.layers@, sel@, i as int) == candidates(self.layers@, sel@, n as int),
                forall|j: int| 0 <= j < cands@.len() ==> #[trigger] cands@[j] < n,
            decreases i,
        {
            let l = &self.layers[i - 1];
            if ((l.opacity > 0 && l.visible) || l.clipping_mask) && sel[i - 1] {
                let ghost before = cands@;
                cands.push(i - 1);
                assert(before + (seq![(i - 1) as usize] + candidates(self.layers@, sel@, i - 1)) =~= cands@
                    + candidates(self.layers@, sel@, i - 1));
            }
            i = i - 1;
        }
        assert(cands@ + Seq::empty() =~= cands@);
        let w = self.header.width;
        let h = self.header.height;
        let ghost wi = w as int;
        assert(w as int * h as int <= 900000000) by (nonlinear_arith)
            requires
                1 <= w <= 30000,
                1 <= h <= 30000,
        ;
        let npix: usize = w as usize * h as usize;
        let mut out: Vec<u8> = Vec::new();
        let mut q: usize = 0;
        while q < npix
            invariant
                self.wf(),
                w == self.header.width,
                wi == w as int,
                npix == w * self.header.height,
                npix <= 900000000,
                q <= npix,
                forall|j: int| 0 <= j < cands@.len() ==> #[trigger] cands@[j] < n,
                n == self.layers@.len(),
                out@.len() == q * 4,
                forall|i: int|
                    0 <= i < q * 4 ==> #[trigger] out@[i] == chan(self.resolve(cands@, 0, (i / 4) % wi, (i / 4) / wi), i % 4),
            decreases npix - q,
        {
            assert(q as int / w as int <= q) by (nonlinear_arith)
                requires
                    w >= 1,
                    q >= 0,
            ;
            let x = (q % w as usize) as u32;
            let y = (q / w as usize) as u32;
            assert(x as int == (q as int) % wi && y as int == (q as int) / wi);
            let px = if cands.len() == 0 {
                (0u8, 0u8, 0u8, 0u8)
            } else {
                self.flattened_pixel(0, x, y, &cands)
            };
            out.push(px.0);
            out.push(px.1);
            out.push(px.2);
            out.push(px.3);
            proof {
                assert forall|i: int| 0 <= i < (q + 1) * 4 implies #[trigger] out@[i] == chan(
                    self.resolve(cands@, 0, (i / 4) % wi, (i / 4) / wi),
                    i % 4,
                ) by {
                    if i >= q * 4 {
                        assert(i / 4 == q as int);
                        assert(i % 4 == i - q * 4);
                    }
                }
            }
            q = q + 1;
        }
        assert(out@ =~= self.flatten_view(sel@));
        out
    }
}

impl Psd {
    /// Flattens into one RGBA image of the canvas's size the eligible layers
    /// (visible and not fully transparent, or clipping masks) that `filter`
    /// accepts; `filter` sees each eligible layer with its stacking index.
    /// With no layers at all the result is the whole-canvas image; with none
    /// accepted it is fully transparent.
    pub fn flatten_layers_rgba<F: Fn((usize, &PsdLayer)) -> bool>(&self, filter: F) -> (r: Result<Vec<u8>, PsdError>)
        requires
            self.wf(),
            forall|i: usize, l: &PsdLayer| #[trigger] filter.requires(((i, l),)),
        ensures
            r is Ok,
            exists|sel: Seq<bool>|
                {
                    &&& sel.len() == self.layers_view().len()
                    &&& forall|i: int|
                        0 <= i < sel.len() && eligible(self.layers_view()[i]) ==> filter.ensures(
                            (((i as usize, &self.layers_view()[i]),)),
                            #[trigger] sel[i],
                        )
                    &&& r->Ok_0@ == self.flatten_view(sel)
                },
    {
        let n = self.layers.len();
        let mut sel: Vec<bool> = Vec::new();
        let mut i: usize = 0;
        while i < n
            invariant
                n == self.layers@.len(),
                i <= n,
                sel@.len() == i,
                forall|i: usize, l: &PsdLayer| #[trigger] filter.requires(((i, l),)),
                forall|j: int|
                    0 <= j < i && eligible(self.layers@[j]) ==> filter.ensures(
                        (((j as usize, &self.layers@[j]),)),
                        #[trigger] sel@[j],
                    ),
            decreases n - i,
        {
            let l = &self.layers[i];
            let keep = if (l.opacity > 0 && l.visible) || l.clipping_mask {
                filter((i, l))
            } else {
                false
            };
            sel.push(keep);
            i = i + 1;
        }
        let out = self.flatten_selected(&sel);
        Ok(out)
    }
}

/// With no layers, flattening under any selection gives the whole-canvas image.
pub proof fn lemma_no_layers_flatten_is_rgba(psd: Psd, sel: Seq<bool>)
    requires
        psd.layers_view().len() == 0,
    ensures
        psd.flatten_view(sel) == psd.rgba_view(),
{
}

/// Every candidate list below `i` is empty when nothing is selected.
proof fn lemma_nothing_selected(layers: Seq<PsdLayer>, sel: Seq<bool>, i: int)
    requires
        i <= sel.len(),
        forall|j: int| 0 <= j < sel.len() ==> !#[trigger] sel[j],
    ensures
        candidates(layers, sel, i) == Seq::<usize>::empty(),
    decreases i,
{
    if i > 0 {
        lemma_nothing_selected(layers, sel, i - 1);
    }
}

/// For a document with layers, flattening with every layer rejected gives a
/// fully transparent buffer of `width * height * 4` zero bytes.
pub proof fn lemma_exclude_all_is_transparent(psd: Psd, sel: Seq<bool>)
    requires
        psd.layers_view().len() > 0,
        sel.len() == psd.layers_view().len(),
        forall|j: int| 0 <= j < sel.len() ==> !#[trigger] sel[j],
    ensures
        psd.flatten_view(sel) == Seq::new((psd.width_spec() * psd.height_spec() * 4) as nat, |i: int| 0u8),
{
    lemma_nothing_selected(psd.layers_view(), sel, sel.len() as int);
    assert(psd.flatten_view(sel) =~= Seq::new((psd.width_spec() * psd.height_spec() * 4) as nat, |i: int| 0u8));
}

/// Flattening depends on the document and on the filter's verdicts on the
/// eligible layers alone: two selections that agree on every eligible layer
/// give the same image, so repeating a call with a deterministic filter
/// repeats the result.
pub proof fn lemma_flatten_repeatable(psd: Psd, sel1: Seq<bool>, sel2: Seq<bool>)
    requires
        sel1.len() == psd.layers_view().len(),
        sel2.len() == psd.layers_view().len(),
        forall|i: int| 0 <= i < sel1.len() && eligible(psd.layers_view()[i]) ==> #[trigger] sel1[i] == sel2[i],
    ensures
        psd.flatten_view(sel1) == psd.flatten_view(sel2),
{
    lemma_same_candidates(psd.layers_view(), sel1, sel2, sel1.len() as int);
}

proof fn lemma_same_candidates(layers: Seq<PsdLayer>, sel1: Seq<bool>, sel2: Seq<bool>, i: int)
    requires
        i <= sel1.len() == sel2.len() <= layers.len(),
        forall|j: int| 0 <= j < sel1.len() && eligible(layers[j]) ==> #[trigger] sel1[j] == sel2[j],
    ensures
        candidates(layers, sel1, i) == candidates(layers, sel2, i),
    decreases i,
{
    if i > 0 {
        lemma_same_candidates(layers, sel1, sel2, i - 1);
    }
}

/// The canvas image has four bytes per pixel.
pub proof fn lemma_rgba_len(psd: Psd)
    ensures
        psd.rgba_view().len() == psd.width_spec() * psd.height_spec() * 4,
{
}

/// In a well-formed document every group's range lies within the layer list,
/// and the ranges of two distinct groups do not overlap unless one group
/// holds the other.
pub proof fn lemma_groups_in_bounds(psd: Psd)
    requires
        psd.wf(),
    ensures
        forall|k: u32|
            #[trigger] psd.groups_view().contains_key(k) ==> psd.groups_view()[k].contained_layers_start
                <= psd.groups_view()[k].contained_layers_end <= psd.layers_view().len(),
        forall|k1: u32, k2: u32|
            #[trigger] psd.groups_view().contains_key(k1) && #[trigger] psd.groups_view().contains_key(k2) && k1
                != k2 ==> nested_or_disjoint(psd.groups_view()[k1], psd.groups_view()[k2]),
{
}

/// The group IDs listed in order have no repeats, and are exactly the keys
/// of the group map.
pub proof fn lemma_group_ids_are_keys(psd: Psd)
    requires
        psd.wf(),
    ensures
        forall|i: int, j: int|
            0 <= i < j < psd.group_ids_view().len() ==> #[trigger] psd.group_ids_view()[i]
                != #[trigger] psd.group_ids_view()[j],
        forall|i: int|
            0 <= i < psd.group_ids_view().len() ==> psd.groups_view().contains_key(
                #[trigger] psd.group_ids_view()[i],
            ),
        forall|k: u32|
            #[trigger] psd.groups_view().contains_key(k) ==> psd.group_ids_view()[k - 1] == k,
{
}

/// A document whose only layer is visible, at full opacity, covers the
/// whole canvas and is opaque everywhere flattens to that layer's own image.
pub proof fn lemma_single_opaque_layer(psd: Psd, sel: Seq<bool>)
    requires
        psd.wf(),
        psd.layers_view().len() == 1,
        sel == seq![true],
        psd.layers_view()[0].visible,
        psd.layers_view()[0].opacity == 255,
        psd.layers_view()[0].layer_left == 0,
        psd.layers_view()[0].layer_top == 0,
        psd.layers_view()[0].layer_right == psd.width_spec(),
        psd.layers_view()[0].layer_bottom == psd.height_spec(),
        forall|q: int|
            0 <= q < psd.width_spec() * psd.height_spec() ==> #[trigger] psd.layers_view()[0].rgba_view()[4 * q + 3]
                == 255,
    ensures
        psd.flatten_view(sel) == psd.layers_view()[0].rgba_view(),
{
    let l = psd.layers_view()[0];
    let w = psd.width_spec();
    let h = psd.height_spec();
    let c = candidates(psd.layers_view(), sel, 1);
    assert(candidates(psd.layers_view(), sel, 0) == Seq::<usize>::empty());
    assert(c =~= seq![0usize]);
    assert forall|i: int| 0 <= i < w * h * 4 implies #[trigger] psd.flatten_view(sel)[i] == l.rgba_view()[i] by {
        let q = i / 4;
        let x = q % w;
        let y = q / w;
        assert(0 <= q < w * h);
        assert(0 <= y < h) by (nonlinear_arith)
            requires
                0 <= q < w * h,
                y == q / w,
                w >= 1,
        ;
        assert(0 <= x < w);
        assert((4 * q + 3) / 4 == q);
        assert((4 * q + 3) % 4 == 3);
        assert(l.rgba_view()[4 * q + 3] == 255);
        assert(l.pixel_chan(x, y, 3) == 255);
        assert(l.covers(x, y));
        let p = opacity_spec(l.pixel_spec(x, y), l.opacity);
        assert(p.3 == 255);
        assert(p == l.pixel_spec(x, y));
        assert(psd.resolve(c, 0, x, y) == p);
    }
    assert(psd.flatten_view(sel) =~= l.rgba_view());
}

/// Two visible layers over the whole canvas, opaque everywhere, the bottom
/// one at full opacity and the top one at opacity 128: each flattened pixel
/// is the top one at alpha 128 composited over the bottom one, that is
/// `(top * 128 + bottom * 127) / 255` in each color channel, fully opaque.
pub proof fn lemma_half_opacity_over_opaque(psd: Psd, sel: Seq<bool>, q: int)
    requires
        psd.wf(),
        psd.layers_view().len() == 2,
        sel == seq![true, true],
        forall|k: int|
            0 <= k < 2 ==> {
                &&& (#[trigger] psd.layers_view()[k]).visible
                &&& psd.layers_view()[k].layer_left == 0
                &&& psd.layers_view()[k].layer_top == 0
                &&& psd.layers_view()[k].layer_right == psd.width_spec()
                &&& psd.layers_view()[k].layer_bottom == psd.height_spec()
                &&& psd.layers_view()[k].rgba_view()[4 * q + 3] == 255
            },
        psd.layers_view()[0].opacity == 255,
        psd.layers_view()[1].opacity == 128,
        0 <= q < psd.width_spec() * psd.height_spec(),
    ensures
        psd.flatten_view(sel)[4 * q + 3] == 255,
        forall|c: int|
            0 <= c < 3 ==> #[trigger] psd.flatten_view(sel)[4 * q + c] as int == (psd.layers_view()[1].rgba_view()[4 * q
                + c] as int * 128 + psd.layers_view()[0].rgba_view()[4 * q + c] as int * 127) / 255,
{
    let b = psd.layers_view()[0];
    let t = psd.layers_view()[1];
    let w = psd.width_spec();
    let h = psd.height_spec();
    assert(b == psd.layers_view()[0] && t == psd.layers_view()[1]);
    assert(psd.layers_view()[0].visible && psd.layers_view()[1].visible);
    assert(psd.layers_view()[0].rgba_view()[4 * q + 3] == 255 && psd.layers_view()[1].rgba_view()[4 * q + 3] == 255);
    assert(candidates(psd.layers_view(), sel, 0) == Seq::<usize>::empty());
    assert(candidates(psd.layers_view(), sel, 1) =~= seq![0usize]);
    let c = candidates(psd.layers_view(), sel, 2);
    assert(c =~= seq![1usize, 0usize]);
    let x = q % w;
    let y = q / w;
    assert(0 <= y < h) by (nonlinear_arith)
        requires
            0 <= q < w * h,
            y == q / w,
            w >= 1,
    ;
    assert(0 <= x < w);
    assert((4 * q) / 4 == q && (4 * q + 1) / 4 == q && (4 * q + 2) / 4 == q && (4 * q + 3) / 4 == q);
    assert((4 * q) % 4 == 0 && (4 * q + 1) % 4 == 1 && (4 * q + 2) % 4 == 2 && (4 * q + 3) % 4 == 3);
    assert(t.pixel_chan(x, y, 3) == 255);
    assert(b.pixel_chan(x, y, 3) == 255);
    let bp = b.pixel_spec(x, y);
    let tp = opacity_spec(t.pixel_spec(x, y), 128);
    assert(tp.3 == 128);
    assert(psd.resolve(c, 1, x, y) == bp);
    assert(psd.resolve(c, 0, x, y) == over_spec(tp, bp));
    assert(over_weight(128, 255) == 65025);
    assert forall|v: int, u: int| 0 <= v <= 255 && 0 <= u <= 255 implies #[trigger] crate::blend::over_chan(v, 128, u, 255)
        == (v * 128 + u * 127) / 255 by {
        assert(v * 128 * 255 + u * 255 * (255 - 128) == 255 * (v * 128 + u * 127)) by (nonlinear_arith);
        assert((255 * (v * 128 + u * 127)) / 65025 == (v * 128 + u * 127) / 255) by (nonlinear_arith)
            requires
                0 <= v * 128 + u * 127,
        ;
        assert(0 <= (v * 128 + u * 127) / 255 <= 255) by (nonlinear_arith)
            requires
                0 <= v <= 255,
                0 <= u <= 255,
        ;
    }
    assert(crate::blend::over_chan(tp.0 as int, 128, bp.0 as int, 255) == (tp.0 as int * 128 + bp.0 as int * 127) / 255);
    assert(crate::blend::over_chan(tp.1 as int, 128, bp.1 as int, 255) == (tp.1 as int * 128 + bp.1 as int * 127) / 255);
    assert(crate::blend::over_chan(tp.2 as int, 128, bp.2 as int, 255) == (tp.2 as int * 128 + bp.2 as int * 127) / 255);
}

/// A raw 8-bit RGB canvas decodes to its stored bytes exactly: pixel `i` of
/// the image takes its red, green and blue from byte `i` of the first three
/// stored planes and its alpha from the fourth, or 255 without one.
pub proof fn lemma_raw_rgb_round_trip(psd: Psd, d: Seq<u8>, h: FileHeaderSection, i: int)
    requires
        image_decoded(psd, d, h),
        psd.width_spec() == h.width,
        psd.height_spec() == h.height,
        psd.depth_spec() == h.depth,
        psd.color_mode_spec() == h.color_mode,
        h.color_mode == ColorMode::Rgb,
        h.depth == PsdDepth::Eight,
        spec_u16(d, 0) == 0,
        h.channel_count == 3 || h.channel_count == 4,
        0 <= i < h.width * h.height,
    ensures
        forall|c: int| 0 <= c < 3 ==> #[trigger] psd.rgba_view()[4 * i + c] == d[2 + c * (h.width * h.height) + i],
        psd.rgba_view()[4 * i + 3] == if h.channel_count == 4 {
            d[2 + 3 * (h.width * h.height) + i]
        } else {
            255u8
        },
{
    let p = h.width * h.height;
    let n = h.channel_count as int;
    let body = d.skip(2);
    assert(decode_plane(0, body, n * h.height, h.width * 1) == Ok::<Seq<u8>, ChannelError>(body));
    assert(body.len() == n * p) by (nonlinear_arith)
        requires
            body.len() == n * h.height * (h.width * 1),
            p == h.width * h.height,
    ;
    assert(n == 3 ==> n * p == 3 * p);
    assert(n == 4 ==> n * p == 4 * p);
    assert((4 * i) / 4 == i && (4 * i + 1) / 4 == i && (4 * i + 2) / 4 == i && (4 * i + 3) / 4 == i);
    assert((4 * i) % 4 == 0 && (4 * i + 1) % 4 == 1 && (4 * i + 2) % 4 == 2 && (4 * i + 3) % 4 == 3);
    assert(psd.rgba_view().len() == p * 4);
    assert(0 * p == 0 && 1 * p == p && 2 * p == p + p && 3 * p == p + p + p);
}

} // verus!
