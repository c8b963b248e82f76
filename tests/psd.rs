use psd::{
    ChannelError, ColorMode, FileHeaderSectionError, ImageDataSectionError, ImageResourcesSectionError, Psd,
    PsdChannelCompression, PsdDepth, PsdError, PsdLayerError,
};

struct LayerSpec {
    top: i32,
    left: i32,
    bottom: i32,
    right: i32,
    opacity: u8,
    flags: u8,
    clipping: u8,
    name: &'static str,
    divider: Option<u32>,
    channels: Vec<(i16, u16, Vec<u8>)>,
}

fn leaf(name: &'static str, rect: (i32, i32, i32, i32), opacity: u8, channels: Vec<(i16, Vec<u8>)>) -> LayerSpec {
    LayerSpec {
        top: rect.0,
        left: rect.1,
        bottom: rect.2,
        right: rect.3,
        opacity,
        flags: 0,
        clipping: 0,
        name,
        divider: None,
        channels: channels.into_iter().map(|(k, d)| (k, 0u16, d)).collect(),
    }
}

fn marker(name: &'static str, divider: u32) -> LayerSpec {
    LayerSpec {
        top: 0,
        left: 0,
        bottom: 0,
        right: 0,
        opacity: 255,
        flags: 0,
        clipping: 0,
        name,
        divider: Some(divider),
        channels: vec![(0, 0, vec![])],
    }
}

fn record(l: &LayerSpec) -> Vec<u8> {
    let mut v = Vec::new();
    for x in [l.top, l.left, l.bottom, l.right] {
        v.extend_from_slice(&x.to_be_bytes());
    }
    v.extend_from_slice(&(l.channels.len() as u16).to_be_bytes());
    for (kind, _, data) in &l.channels {
        v.extend_from_slice(&kind.to_be_bytes());
        v.extend_from_slice(&(2 + data.len() as u32).to_be_bytes());
    }
    v.extend_from_slice(b"8BIMnorm");
    v.extend_from_slice(&[l.opacity, l.clipping, l.flags, 0]);
    let mut extra = Vec::new();
    extra.extend_from_slice(&0u32.to_be_bytes());
    extra.extend_from_slice(&0u32.to_be_bytes());
    let mut name = vec![l.name.len() as u8];
    name.extend_from_slice(l.name.as_bytes());
    while name.len() % 4 != 0 {
        name.push(0);
    }
    extra.extend_from_slice(&name);
    if let Some(d) = l.divider {
        extra.extend_from_slice(b"8BIMlsct");
        extra.extend_from_slice(&4u32.to_be_bytes());
        extra.extend_from_slice(&d.to_be_bytes());
    }
    v.extend_from_slice(&(extra.len() as u32).to_be_bytes());
    v.extend_from_slice(&extra);
    v
}

/// A layer and mask section holding `layers`, given top first as in a file.
fn layer_section(layers: &[LayerSpec]) -> Vec<u8> {
    let mut info = Vec::new();
    info.extend_from_slice(&(layers.len() as i16).to_be_bytes());
    for l in layers {
        info.extend_from_slice(&record(l));
    }
    for l in layers {
        for (_, tag, data) in &l.channels {
            info.extend_from_slice(&tag.to_be_bytes());
            info.extend_from_slice(data);
        }
    }
    let mut s = Vec::new();
    s.extend_from_slice(&(info.len() as u32).to_be_bytes());
    s.extend_from_slice(&info);
    s.extend_from_slice(&0u32.to_be_bytes());
    s
}

fn file(channels: u16, height: u32, width: u32, depth: u16, mode: u16, resources: &[u8], layers: &[u8], image: &[u8]) -> Vec<u8> {
    let mut v = Vec::new();
    v.extend_from_slice(b"8BPS");
    v.extend_from_slice(&1u16.to_be_bytes());
    v.extend_from_slice(&[0; 6]);
    v.extend_from_slice(&channels.to_be_bytes());
    v.extend_from_slice(&height.to_be_bytes());
    v.extend_from_slice(&width.to_be_bytes());
    v.extend_from_slice(&depth.to_be_bytes());
    v.extend_from_slice(&mode.to_be_bytes());
    v.extend_from_slice(&0u32.to_be_bytes());
    v.extend_from_slice(&(resources.len() as u32).to_be_bytes());
    v.extend_from_slice(resources);
    v.extend_from_slice(&(layers.len() as u32).to_be_bytes());
    v.extend_from_slice(layers);
    v.extend_from_slice(image);
    v
}

fn raw_image(planes: &[Vec<u8>]) -> Vec<u8> {
    let mut v = vec![0, 0];
    for p in planes {
        v.extend_from_slice(p);
    }
    v
}

/// An RGB canvas of `w` by `h` with a flat background color and `layers`.
fn rgb_doc(w: u32, h: u32, bg: [u8; 3], layers: &[LayerSpec]) -> Psd {
    let n = (w * h) as usize;
    let image = raw_image(&[vec![bg[0]; n], vec![bg[1]; n], vec![bg[2]; n]]);
    let ls = if layers.is_empty() { vec![] } else { layer_section(layers) };
    Psd::from_bytes(&file(3, h, w, 8, 3, &[], &ls, &image)).unwrap()
}

fn solid(name: &'static str, rect: (i32, i32, i32, i32), opacity: u8, rgba: [u8; 4]) -> LayerSpec {
    let n = ((rect.2 - rect.0).max(0) * (rect.3 - rect.1).max(0)) as usize;
    leaf(
        name,
        rect,
        opacity,
        vec![(0, vec![rgba[0]; n]), (1, vec![rgba[1]; n]), (2, vec![rgba[2]; n]), (-1, vec![rgba[3]; n])],
    )
}

#[test]
fn psd_signature_fail() {
    let psd: [u8; 69] = [
        0x89, 0x50, 0x4e, 0x47, 0x0d, 0x0a, 0x1a, 0x0a, 0x00, 0x00, 0x00, 0x0d, 0x49, 0x48, 0x44, 0x52, 0x00, 0x00,
        0x00, 0x01, 0x00, 0x00, 0x00, 0x01, 0x08, 0x02, 0x00, 0x00, 0x00, 0x90, 0x77, 0x53, 0xde, 0x00, 0x00, 0x00,
        0x0c, 0x49, 0x44, 0x41, 0x54, 0x08, 0xd7, 0x63, 0x60, 0xf8, 0xcf, 0x00, 0x00, 0x02, 0x02, 0x01, 0x00, 0x7b,
        0x0e, 0x5b, 0x57, 0x00, 0x00, 0x00, 0x00, 0x49, 0x45, 0x4e, 0x44, 0xae, 0x42, 0x60, 0x82,
    ];

    let err = Psd::from_bytes(&psd).expect_err("Psd::from_bytes() didn't catch the PNG file");

    assert_eq!(err, PsdError::HeaderError(FileHeaderSectionError::InvalidSignature {}));
}

#[test]
fn header_fields_are_read() {
    let image = raw_image(&[vec![7; 6], vec![8; 6], vec![9; 6]]);
    let psd = Psd::from_bytes(&file(3, 2, 3, 8, 3, &[], &[], &image)).unwrap();
    assert_eq!(psd.width(), 3);
    assert_eq!(psd.height(), 2);
    assert_eq!(psd.depth(), PsdDepth::Eight);
    assert_eq!(psd.color_mode(), ColorMode::Rgb);
    assert_eq!(*psd.compression(), PsdChannelCompression::RawData);
    assert!(psd.layers().is_empty());
    assert!(psd.groups().is_empty());
}

#[test]
fn header_errors() {
    let image = raw_image(&[vec![0; 1]]);
    let mut bad_version = file(1, 1, 1, 8, 1, &[], &[], &image);
    bad_version[5] = 2;
    assert_eq!(Psd::from_bytes(&bad_version).unwrap_err(), PsdError::HeaderError(FileHeaderSectionError::InvalidVersion));
    let no_channels = file(0, 1, 1, 8, 1, &[], &[], &image);
    assert_eq!(Psd::from_bytes(&no_channels).unwrap_err(), PsdError::HeaderError(FileHeaderSectionError::InvalidChannelCount));
    let bad_depth = file(1, 1, 1, 7, 1, &[], &[], &image);
    assert_eq!(Psd::from_bytes(&bad_depth).unwrap_err(), PsdError::HeaderError(FileHeaderSectionError::InvalidDepth));
    let bad_mode = file(1, 1, 1, 8, 5, &[], &[], &image);
    assert_eq!(Psd::from_bytes(&bad_mode).unwrap_err(), PsdError::HeaderError(FileHeaderSectionError::InvalidColorMode));
    let too_wide = file(1, 1, 30001, 8, 1, &[], &[], &image);
    assert_eq!(Psd::from_bytes(&too_wide).unwrap_err(), PsdError::HeaderError(FileHeaderSectionError::InvalidWidth));
    let short = &file(1, 1, 1, 8, 1, &[], &[], &image)[..20];
    assert_eq!(Psd::from_bytes(short).unwrap_err(), PsdError::HeaderError(FileHeaderSectionError::IncorrectLength));
    let mut long_section = file(1, 1, 1, 8, 1, &[], &[], &image);
    long_section[29] = 200;
    assert_eq!(Psd::from_bytes(&long_section).unwrap_err(), PsdError::HeaderError(FileHeaderSectionError::IncorrectLength));
}

#[test]
fn rgba_has_four_bytes_per_pixel() {
    let image = raw_image(&[vec![1, 2, 3, 4, 5, 6], vec![10; 6], vec![20; 6], vec![128; 6]]);
    let psd = Psd::from_bytes(&file(4, 2, 3, 8, 3, &[], &[], &image)).unwrap();
    let rgba = psd.rgba();
    assert_eq!(rgba.len(), (psd.width() * psd.height() * 4) as usize);
    assert_eq!(&rgba[0..8], &[1, 10, 20, 128, 2, 10, 20, 128]);
    assert_eq!(&rgba[20..24], &[6, 10, 20, 128]);
}

#[test]
fn grayscale_is_replicated_and_cmyk_is_converted() {
    let gray = Psd::from_bytes(&file(2, 1, 2, 8, 1, &[], &[], &raw_image(&[vec![9, 200], vec![1, 2]]))).unwrap();
    assert_eq!(gray.rgba(), vec![9, 9, 9, 255, 200, 200, 200, 255]);
    let cmyk = Psd::from_bytes(&file(4, 1, 1, 8, 4, &[], &[], &raw_image(&[vec![10], vec![20], vec![30], vec![240]]))).unwrap();
    assert_eq!(cmyk.rgba(), vec![5, 0, 0, 255]);
    let cmyk2 = Psd::from_bytes(&file(4, 1, 1, 8, 4, &[], &[], &raw_image(&[vec![10], vec![20], vec![30], vec![40]]))).unwrap();
    assert_eq!(cmyk2.rgba(), vec![205, 195, 185, 255]);
}

#[test]
fn sixteen_bit_samples_keep_the_high_byte() {
    let psd = Psd::from_bytes(&file(1, 1, 2, 16, 1, &[], &[], &raw_image(&[vec![0x12, 0x34, 0xab, 0xcd]]))).unwrap();
    assert_eq!(psd.rgba(), vec![0x12, 0x12, 0x12, 255, 0xab, 0xab, 0xab, 255]);
}

#[test]
fn no_layers_flatten_is_rgba() {
    let psd = rgb_doc(2, 2, [3, 4, 5], &[]);
    assert_eq!(psd.flatten_layers_rgba(|(_, _)| true).unwrap(), psd.rgba());
    assert_eq!(psd.flatten_layers_rgba(|(_, _)| false).unwrap(), psd.rgba());
}

#[test]
fn exclude_all_is_transparent() {
    let psd = rgb_doc(3, 2, [3, 4, 5], &[solid("a", (0, 0, 2, 3), 255, [9, 9, 9, 255])]);
    let out = psd.flatten_layers_rgba(|(_, _)| false).unwrap();
    assert_eq!(out, vec![0; 3 * 2 * 4]);
}

#[test]
fn flatten_twice_gives_the_same_image() {
    let psd = rgb_doc(
        2,
        2,
        [0, 0, 0],
        &[solid("top", (0, 0, 2, 1), 100, [200, 0, 0, 255]), solid("bottom", (0, 0, 2, 2), 255, [0, 0, 200, 255])],
    );
    let a = psd.flatten_layers_rgba(|(i, _)| i == 1).unwrap();
    let b = psd.flatten_layers_rgba(|(i, _)| i == 1).unwrap();
    assert_eq!(a, b);
    let c = psd.flatten_layers_rgba(|(_, _)| true).unwrap();
    let d = psd.flatten_layers_rgba(|(_, _)| true).unwrap();
    assert_eq!(c, d);
}

#[test]
fn single_opaque_layer_flattens_to_itself() {
    let psd = rgb_doc(2, 2, [0, 0, 0], &[solid("only", (0, 0, 2, 2), 255, [11, 22, 33, 255])]);
    let out = psd.flatten_layers_rgba(|(_, _)| true).unwrap();
    assert_eq!(out, psd.layer_by_idx(0).rgba());
    assert_eq!(&out[0..4], &[11, 22, 33, 255]);
}

#[test]
fn half_opacity_blends_over_the_layer_below() {
    let psd = rgb_doc(
        1,
        1,
        [0, 0, 0],
        &[solid("top", (0, 0, 1, 1), 128, [200, 100, 50, 255]), solid("bottom", (0, 0, 1, 1), 255, [10, 20, 30, 255])],
    );
    let out = psd.flatten_layers_rgba(|(_, _)| true).unwrap();
    let sa: u32 = 255 * 128 / 255;
    let over = |s: u32, d: u32| ((s * sa * 255 + d * 255 * (255 - sa)) / (sa * 255 + 255 * (255 - sa))) as u8;
    assert_eq!(out, vec![over(200, 10), over(100, 20), over(50, 30), 255]);
    assert_eq!(out, vec![105, 60, 40, 255]);
}

#[test]
fn degenerate_layer_shows_the_layer_below() {
    let psd = rgb_doc(
        2,
        1,
        [0, 0, 0],
        &[solid("empty", (0, 1, 1, 1), 255, [255, 255, 255, 255]), solid("bottom", (0, 0, 1, 2), 255, [1, 2, 3, 255])],
    );
    let out = psd.flatten_layers_rgba(|(_, _)| true).unwrap();
    assert_eq!(out, vec![1, 2, 3, 255, 1, 2, 3, 255]);
}

#[test]
fn hidden_and_transparent_layers_are_skipped() {
    let mut hidden = solid("hidden", (0, 0, 1, 1), 255, [255, 0, 0, 255]);
    hidden.flags = 2;
    let psd = rgb_doc(
        1,
        1,
        [0, 0, 0],
        &[hidden, solid("clear", (0, 0, 1, 1), 0, [0, 255, 0, 255]), solid("bottom", (0, 0, 1, 1), 255, [1, 2, 3, 255])],
    );
    assert!(!psd.layer_by_idx(2).visible);
    assert_eq!(psd.flatten_layers_rgba(|(_, _)| true).unwrap(), vec![1, 2, 3, 255]);
}

#[test]
fn layer_outside_pixel_uses_layer_below() {
    let psd = rgb_doc(
        2,
        1,
        [0, 0, 0],
        &[solid("left", (0, 0, 1, 1), 255, [50, 60, 70, 255]), solid("bottom", (0, 0, 1, 2), 255, [1, 2, 3, 255])],
    );
    let out = psd.flatten_layers_rgba(|(_, _)| true).unwrap();
    assert_eq!(out, vec![50, 60, 70, 255, 1, 2, 3, 255]);
    let only_top = psd.flatten_layers_rgba(|(_, l)| l.name == b"left".to_vec()).unwrap();
    assert_eq!(only_top, vec![50, 60, 70, 255, 0, 0, 0, 0]);
}

#[test]
fn layers_are_bottom_first_and_found_by_name() {
    let psd = rgb_doc(
        1,
        1,
        [0, 0, 0],
        &[solid("top", (0, 0, 1, 1), 255, [1, 1, 1, 255]), solid("bottom", (0, 0, 1, 1), 255, [2, 2, 2, 255])],
    );
    assert_eq!(psd.layers().len(), 2);
    assert_eq!(psd.layer_by_idx(0).name, b"bottom".to_vec());
    assert_eq!(psd.layer_by_idx(1).name, b"top".to_vec());
    assert_eq!(psd.layer_by_name("top").unwrap().name, b"top".to_vec());
    assert!(psd.layer_by_name("missing").is_none());
}

#[test]
fn groups_cover_their_layers() {
    let psd = rgb_doc(
        1,
        1,
        [0, 0, 0],
        &[
            marker("outer", 1),
            solid("a", (0, 0, 1, 1), 255, [1, 1, 1, 255]),
            marker("inner", 2),
            solid("b", (0, 0, 1, 1), 255, [2, 2, 2, 255]),
            marker("", 3),
            marker("", 3),
            solid("c", (0, 0, 1, 1), 255, [3, 3, 3, 255]),
        ],
    );
    assert_eq!(psd.layers().len(), 3);
    assert_eq!(psd.group_ids_in_order(), &vec![1, 2]);
    let n = psd.layers().len();
    assert_eq!(psd.groups().len(), 2);
    for (id, g) in psd.groups() {
        assert_eq!(*id, g.id);
        assert!(g.contained_layers_start <= g.contained_layers_end && g.contained_layers_end <= n);
    }
    assert_eq!(psd.groups()[&1].name, b"outer".to_vec());
    assert_eq!((psd.groups()[&1].contained_layers_start, psd.groups()[&1].contained_layers_end), (1, 3));
    assert_eq!((psd.groups()[&2].contained_layers_start, psd.groups()[&2].contained_layers_end), (1, 2));
    let outer = psd.get_group_sub_layers(&1).unwrap();
    let names: Vec<Vec<u8>> = outer.iter().map(|l| l.name.clone()).collect();
    assert_eq!(names, vec![b"b".to_vec(), b"a".to_vec()]);
    let inner = psd.get_group_sub_layers(&2).unwrap();
    assert_eq!(inner.len(), 1);
    assert_eq!(inner[0].name, b"b".to_vec());
    assert!(psd.get_group_sub_layers(&3).is_none());
}

#[test]
fn sibling_groups_do_not_overlap() {
    let psd = rgb_doc(
        1,
        1,
        [0, 0, 0],
        &[
            marker("first", 1),
            solid("a", (0, 0, 1, 1), 255, [1, 1, 1, 255]),
            marker("", 3),
            marker("second", 1),
            solid("b", (0, 0, 1, 1), 255, [2, 2, 2, 255]),
            marker("", 3),
        ],
    );
    let gs = psd.groups();
    assert_eq!(gs.len(), 2);
    let (a, b) = (&gs[&1], &gs[&2]);
    assert!(a.contained_layers_end <= b.contained_layers_start || b.contained_layers_end <= a.contained_layers_start);
    assert_eq!((a.contained_layers_start, a.contained_layers_end), (1, 2));
    assert_eq!((b.contained_layers_start, b.contained_layers_end), (0, 1));
}

#[test]
fn unbalanced_groups_fail() {
    let image = raw_image(&[vec![0], vec![0], vec![0]]);
    let open_only = layer_section(&[marker("g", 1), solid("a", (0, 0, 1, 1), 255, [1, 1, 1, 255])]);
    assert_eq!(
        Psd::from_bytes(&file(3, 1, 1, 8, 3, &[], &open_only, &image)).unwrap_err(),
        PsdError::LayerError(PsdLayerError::UnbalancedGroups { layer: 2 })
    );
    let close_only = layer_section(&[marker("", 3)]);
    assert_eq!(
        Psd::from_bytes(&file(3, 1, 1, 8, 3, &[], &close_only, &image)).unwrap_err(),
        PsdError::LayerError(PsdLayerError::UnbalancedGroups { layer: 0 })
    );
}

#[test]
fn rle_image_data_decodes_exactly() {
    let image = vec![0, 1, 0, 2, 253, 0x41];
    let psd = Psd::from_bytes(&file(1, 1, 4, 8, 1, &[], &[], &image)).unwrap();
    assert_eq!(*psd.compression(), PsdChannelCompression::RleCompressed);
    assert_eq!(psd.rgba(), vec![0x41, 0x41, 0x41, 255].repeat(4));
    let literal = vec![0, 1, 0, 6, 1, 7, 8, 128, 0xfe, 9];
    let psd = Psd::from_bytes(&file(1, 1, 5, 8, 1, &[], &[], &literal)).unwrap();
    let gray: Vec<u8> = psd.rgba().chunks(4).map(|p| p[0]).collect();
    assert_eq!(gray, vec![7, 8, 9, 9, 9]);
}

#[test]
fn rle_length_mismatch_fails() {
    let short_row = vec![0, 1, 0, 2, 254, 0x41];
    assert_eq!(
        Psd::from_bytes(&file(1, 1, 4, 8, 1, &[], &[], &short_row)).unwrap_err(),
        PsdError::ImageError(ImageDataSectionError::Channel(ChannelError::RleLengthMismatch))
    );
    let trailing = vec![0, 1, 0, 2, 253, 0x41, 0];
    assert_eq!(
        Psd::from_bytes(&file(1, 1, 4, 8, 1, &[], &[], &trailing)).unwrap_err(),
        PsdError::ImageError(ImageDataSectionError::Channel(ChannelError::RleLengthMismatch))
    );
}

#[test]
fn raw_length_mismatch_and_zip_fail() {
    assert_eq!(
        Psd::from_bytes(&file(1, 1, 4, 8, 1, &[], &[], &[0, 0, 1, 2, 3])).unwrap_err(),
        PsdError::ImageError(ImageDataSectionError::Channel(ChannelError::RawLengthMismatch))
    );
    assert_eq!(
        Psd::from_bytes(&file(1, 1, 1, 8, 1, &[], &[], &[0, 2, 1])).unwrap_err(),
        PsdError::ImageError(ImageDataSectionError::Channel(ChannelError::UnsupportedCompression))
    );
    assert_eq!(
        Psd::from_bytes(&file(1, 1, 1, 8, 1, &[], &[], &[0, 9, 1])).unwrap_err(),
        PsdError::ImageError(ImageDataSectionError::Channel(ChannelError::InvalidCompression))
    );
}

#[test]
fn layer_rle_channel_decodes() {
    let mut l = solid("rle", (0, 0, 1, 2), 255, [0, 0, 0, 255]);
    l.channels[0] = (0, 1, vec![0, 2, 255, 77]);
    let psd = rgb_doc(2, 1, [0, 0, 0], &[l]);
    assert_eq!(&psd.layer_by_idx(0).rgba()[0..4], &[77, 0, 0, 255]);
    assert_eq!(&psd.layer_by_idx(0).rgba()[4..8], &[77, 0, 0, 255]);
}

#[test]
fn resources_are_kept_in_order() {
    let mut res = Vec::new();
    res.extend_from_slice(b"8BIM");
    res.extend_from_slice(&1005u16.to_be_bytes());
    res.extend_from_slice(&[0, 0]);
    res.extend_from_slice(&3u32.to_be_bytes());
    res.extend_from_slice(&[1, 2, 3, 0]);
    res.extend_from_slice(b"8BIM");
    res.extend_from_slice(&1036u16.to_be_bytes());
    res.extend_from_slice(&[1, b'x']);
    res.extend_from_slice(&2u32.to_be_bytes());
    res.extend_from_slice(&[4, 5]);
    let image = raw_image(&[vec![0]]);
    let psd = Psd::from_bytes(&file(1, 1, 1, 8, 1, &res, &[], &image)).unwrap();
    let r = psd.resources();
    assert_eq!(r.len(), 2);
    assert_eq!((r[0].id, r[0].data.clone()), (1005, vec![1, 2, 3]));
    assert_eq!((r[1].id, r[1].data.clone()), (1036, vec![4, 5]));
    let mut bad = res.clone();
    bad[0] = b'X';
    assert_eq!(
        Psd::from_bytes(&file(1, 1, 1, 8, 1, &bad, &[], &image)).unwrap_err(),
        PsdError::ResourceError(ImageResourcesSectionError::InvalidSignature)
    );
    let cut = &res[..res.len() - 3];
    assert_eq!(
        Psd::from_bytes(&file(1, 1, 1, 8, 1, cut, &[], &image)).unwrap_err(),
        PsdError::ResourceError(ImageResourcesSectionError::Truncated)
    );
}

#[test]
fn clipping_layer_at_zero_opacity_still_takes_part() {
    let mut clip = solid("clip", (0, 0, 1, 1), 0, [255, 255, 255, 255]);
    clip.clipping = 1;
    let psd = rgb_doc(1, 1, [0, 0, 0], &[clip, solid("bottom", (0, 0, 1, 1), 255, [1, 2, 3, 255])]);
    assert!(psd.layer_by_idx(1).clipping_mask);
    let seen = std::cell::RefCell::new(Vec::new());
    let out = psd
        .flatten_layers_rgba(|(i, _)| {
            seen.borrow_mut().push(i);
            true
        })
        .unwrap();
    assert_eq!(out, vec![1, 2, 3, 255]);
    assert_eq!(*seen.borrow(), vec![0, 1]);
}

#[test]
fn bad_layer_channel_fails_with_its_record() {
    let mut l = solid("rle", (0, 0, 1, 2), 255, [0, 0, 0, 255]);
    l.channels[0] = (0, 1, vec![0, 2, 254, 77]);
    let image = raw_image(&[vec![0; 2], vec![0; 2], vec![0; 2]]);
    let ls = layer_section(&[l]);
    assert_eq!(
        Psd::from_bytes(&file(3, 1, 2, 8, 3, &[], &ls, &image)).unwrap_err(),
        PsdError::LayerError(PsdLayerError::Channel { layer: 0, error: ChannelError::RleLengthMismatch })
    );
}

#[test]
fn layer_record_fields_are_read() {
    let mut l = solid("fields", (0, 0, 1, 1), 77, [1, 2, 3, 4]);
    l.flags = 2;
    l.clipping = 1;
    let mut ls = layer_section(&[l]);
    // a negative count only flags the merged transparency
    ls[4] = 0xff;
    ls[5] = 0xff;
    let image = raw_image(&[vec![0], vec![0], vec![0]]);
    let psd = Psd::from_bytes(&file(3, 1, 1, 8, 3, &[], &ls, &image)).unwrap();
    let layer = psd.layer_by_idx(0);
    assert_eq!(psd.layers().len(), 1);
    assert_eq!(layer.blend_mode, u32::from_be_bytes(*b"norm"));
    assert_eq!(layer.opacity, 77);
    assert!(!layer.visible);
    assert!(layer.clipping_mask);
    assert_eq!((layer.layer_top, layer.layer_left, layer.layer_bottom, layer.layer_right), (0, 0, 1, 1));
    assert_eq!(layer.rgba(), vec![1, 2, 3, 4]);
}

#[test]
fn layer_errors_name_their_record() {
    let image = raw_image(&[vec![0], vec![0], vec![0]]);
    let good = || solid("a", (0, 0, 1, 1), 255, [1, 1, 1, 255]);
    // second record's blend mode signature is broken
    let mut ls = layer_section(&[good(), good()]);
    let first_len = record(&good()).len();
    let sig_at = 4 + 2 + first_len + 18 + 4 * 6;
    assert_eq!(&ls[sig_at..sig_at + 4], b"8BIM");
    ls[sig_at] = b'X';
    assert_eq!(
        Psd::from_bytes(&file(3, 1, 1, 8, 3, &[], &ls, &image)).unwrap_err(),
        PsdError::LayerError(PsdLayerError::InvalidSignature { layer: 1 })
    );
    // a layer info that ends inside the first record's channel table
    let mut cut = Vec::new();
    let info = [0u8, 1, 0, 0, 0, 0, 0, 0, 0, 0, 0, 1, 0, 0, 0, 1, 0, 0, 0, 4, 0, 0];
    cut.extend_from_slice(&(info.len() as u32).to_be_bytes());
    cut.extend_from_slice(&info);
    assert_eq!(
        Psd::from_bytes(&file(3, 1, 1, 8, 3, &[], &cut, &image)).unwrap_err(),
        PsdError::LayerError(PsdLayerError::MalformedRecord { layer: 0 })
    );
    // the third record closes a group while none is open
    let close_late = layer_section(&[good(), good(), marker("", 3)]);
    assert_eq!(
        Psd::from_bytes(&file(3, 1, 1, 8, 3, &[], &close_late, &image)).unwrap_err(),
        PsdError::LayerError(PsdLayerError::UnbalancedGroups { layer: 2 })
    );
}

#[test]
fn group_ids_are_the_map_keys_in_opening_order() {
    let psd = rgb_doc(
        1,
        1,
        [0, 0, 0],
        &[
            marker("first", 1),
            marker("inner", 1),
            solid("a", (0, 0, 1, 1), 255, [1, 1, 1, 255]),
            marker("", 3),
            marker("", 3),
            marker("second", 2),
            solid("b", (0, 0, 1, 1), 255, [2, 2, 2, 255]),
            marker("", 3),
        ],
    );
    let ids = psd.group_ids_in_order();
    assert_eq!(ids, &vec![1, 2, 3]);
    let mut keys: Vec<u32> = psd.groups().keys().copied().collect();
    keys.sort();
    assert_eq!(&keys, ids);
    assert_eq!(psd.groups()[&1].name, b"first".to_vec());
    assert_eq!(psd.groups()[&2].name, b"inner".to_vec());
    assert_eq!(psd.groups()[&3].name, b"second".to_vec());
    assert_eq!((psd.groups()[&1].contained_layers_start, psd.groups()[&1].contained_layers_end), (1, 2));
    assert_eq!((psd.groups()[&2].contained_layers_start, psd.groups()[&2].contained_layers_end), (1, 2));
    assert_eq!((psd.groups()[&3].contained_layers_start, psd.groups()[&3].contained_layers_end), (0, 1));
}
