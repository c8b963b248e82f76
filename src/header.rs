//! The fixed file header and the framing of the top-level sections.
use vstd::prelude::*;

use crate::bytes::{read_u16, read_u32, spec_u16, spec_u32};

verus! {

/// The color mode of a document.
#[derive(Debug, Clone, Copy, PartialEq, Eq)]
pub enum ColorMode {
    Bitmap,
    Grayscale,
    Indexed,
    Rgb,
    Cmyk,
    Multichannel,
    Duotone,
    Lab,
}

/// The number of bits per channel sample.
#[derive(Debug, Clone, Copy, PartialEq, Eq)]
pub enum PsdDepth {
    One,
    Eight,
    Sixteen,
    ThirtyTwo,
}

/// Why the header or the section framing was rejected.
#[derive(Debug, Clone, Copy, PartialEq, Eq)]
pub enum FileHeaderSectionError {
    /// The file does not start with `8BPS`.
    InvalidSignature,
    /// The version field is not 1.
    InvalidVersion,
    /// The channel count is outside 1 to 56.
    InvalidChannelCount,
    /// The height is outside 1 to 30,000.
    InvalidHeight,
    /// The width is outside 1 to 30,000.
    InvalidWidth,
    /// The depth is not 1, 8, 16 or 32.
    InvalidDepth,
    /// The color mode is not a known one.
    InvalidColorMode,
    /// The header or a section is cut short by the end of the file.
    IncorrectLength,
    /// The canvas is too large for this machine's address space.
    TooLarge,
}

/// The fields of the fixed 26-byte header.
#[derive(Debug, Clone, Copy)]
pub struct FileHeaderSection {
    pub channel_count: u16,
    pub height: u32,
    pub width: u32,
    pub depth: PsdDepth,
    pub color_mode: ColorMode,
}

/// Where the sections that follow the header lie in the file.
#[derive(Debug, Clone, Copy)]
pub struct MajorSections {
    pub resources_start: usize,
    pub resources_end: usize,
    pub layers_start: usize,
    pub layers_end: usize,
    pub image_start: usize,
}

pub open spec fn depth_of(v: int) -> Option<PsdDepth> {
    if v == 1 {
        Some(PsdDepth::One)
    } else if v == 8 {
        Some(PsdDepth::Eight)
    } else if v == 16 {
        Some(PsdDepth::Sixteen)
    } else if v == 32 {
        Some(PsdDepth::ThirtyTwo)
    } else {
        None
    }
}

pub open spec fn color_mode_of(v: int) -> Option<ColorMode> {
    if v == 0 {
        Some(ColorMode::Bitmap)
    } else if v == 1 {
        Some(ColorMode::Grayscale)
    } else if v == 2 {
        Some(ColorMode::Indexed)
    } else if v == 3 {
        Some(ColorMode::Rgb)
    } else if v == 4 {
        Some(ColorMode::Cmyk)
    } else if v == 7 {
        Some(ColorMode::Multichannel)
    } else if v == 8 {
        Some(ColorMode::Duotone)
    } else if v == 9 {
        Some(ColorMode::Lab)
    } else {
        None
    }
}

/// Bytes taken by one sample at a given depth (one-bit samples are held one
/// per byte).
pub open spec fn sample_bytes(d: PsdDepth) -> int {
    match d {
        PsdDepth::One => 1,
        PsdDepth::Eight => 1,
        PsdDepth::Sixteen => 2,
        PsdDepth::ThirtyTwo => 4,
    }
}

pub fn depth_bytes(d: PsdDepth) -> (r: usize)
    ensures
        r as int == sample_bytes(d),
        1 <= r <= 4,
{
    match d {
        PsdDepth::One => 1,
        PsdDepth::Eight => 1,
        PsdDepth::Sixteen => 2,
        PsdDepth::ThirtyTwo => 4,
    }
}

pub open spec fn has_signature(b: Seq<u8>) -> bool {
    b.len() >= 4 && b[0] == 0x38 && b[1] == 0x42 && b[2] == 0x50 && b[3] == 0x53
}

/// The framing of a whole file: the signature and version are checked first,
/// then each length-prefixed section must fit in what is left.
pub open spec fn split_spec(b: Seq<u8>) -> Result<MajorSections, FileHeaderSectionError> {
    if !has_signature(b) {
        Err(FileHeaderSectionError::InvalidSignature)
    } else if b.len() < 26 {
        Err(FileHeaderSectionError::IncorrectLength)
    } else if spec_u16(b, 4) != 1 {
        Err(FileHeaderSectionError::InvalidVersion)
    } else if b.len() < 30 {
        Err(FileHeaderSectionError::IncorrectLength)
    } else {
        let rs = 30 + spec_u32(b, 26) + 4;
        if rs > b.len() {
            Err(FileHeaderSectionError::IncorrectLength)
        } else {
            let re = rs + spec_u32(b, rs - 4);
            if re + 4 > b.len() {
                Err(FileHeaderSectionError::IncorrectLength)
            } else {
                let ls = re + 4;
                let le = ls + spec_u32(b, re);
                if le > b.len() {
                    Err(FileHeaderSectionError::IncorrectLength)
                } else {
                    Ok(
                        MajorSections {
                            resources_start: rs as usize,
                            resources_end: re as usize,
                            layers_start: ls as usize,
                            layers_end: le as usize,
                            image_start: le as usize,
                        },
                    )
                }
            }
        }
    }
}

/// The header fields of a file: too short a file is cut off, and the fields
/// are checked in the order channel count, height, width, depth, color mode.
pub open spec fn header_spec(b: Seq<u8>) -> Result<FileHeaderSection, FileHeaderSectionError> {
    let channels = spec_u16(b, 12);
    let height = spec_u32(b, 14);
    let width = spec_u32(b, 18);
    if b.len() < 26 {
        Err(FileHeaderSectionError::IncorrectLength)
    } else if channels < 1 || channels > 56 {
        Err(FileHeaderSectionError::InvalidChannelCount)
    } else if height < 1 || height > 30000 {
        Err(FileHeaderSectionError::InvalidHeight)
    } else if width < 1 || width > 30000 {
        Err(FileHeaderSectionError::InvalidWidth)
    } else if depth_of(spec_u16(b, 22)) is None {
        Err(FileHeaderSectionError::InvalidDepth)
    } else if color_mode_of(spec_u16(b, 24)) is None {
        Err(FileHeaderSectionError::InvalidColorMode)
    } else {
        Ok(
            FileHeaderSection {
                channel_count: channels as u16,
                height: height as u32,
                width: width as u32,
                depth: depth_of(spec_u16(b, 22)).unwrap(),
                color_mode: color_mode_of(spec_u16(b, 24)).unwrap(),
            },
        )
    }
}

impl MajorSections {
    /// Finds the sections of a file.
    pub fn from_bytes(b: &[u8]) -> (r: Result<MajorSections, FileHeaderSectionError>)
        ensures
            r == split_spec(b@),
            r is Ok ==> {
                let m = r->Ok_0;
                &&& m.resources_start <= m.resources_end
                &&& m.resources_end + 4 <= m.layers_start <= m.layers_end == m.image_start <= b@.len()
            },
    {
        if b.len() < 4 || b[0] != 0x38 || b[1] != 0x42 || b[2] != 0x50 || b[3] != 0x53 {
            return Err(FileHeaderSectionError::InvalidSignature);
        }
        if b.len() < 26 {
            return Err(FileHeaderSectionError::IncorrectLength);
        }
        if read_u16(b, 4) != 1 {
            return Err(FileHeaderSectionError::InvalidVersion);
        }
        if b.len() < 30 {
            return Err(FileHeaderSectionError::IncorrectLength);
        }
        let cm = read_u32(b, 26) as usize;
        if b.len() < 34 || cm > b.len() - 34 {
            return Err(FileHeaderSectionError::IncorrectLength);
        }
        let rs = 34 + cm;
        let rl = read_u32(b, rs - 4) as usize;
        if rl > b.len() - rs || b.len() - rs - rl < 4 {
            return Err(FileHeaderSectionError::IncorrectLength);
        }
        let re = rs + rl;
        let ls = re + 4;
        let ll = read_u32(b, re) as usize;
        if ll > b.len() - ls {
            return Err(FileHeaderSectionError::IncorrectLength);
        }
        let le = ls + ll;
        Ok(MajorSections { resources_start: rs, resources_end: re, layers_start: ls, layers_end: le, image_start: le })
    }
}

impl FileHeaderSection {
    /// Reads the header fields of a file whose framing is sound.
    pub fn from_bytes(b: &[u8]) -> (r: Result<FileHeaderSection, FileHeaderSectionError>)
        ensures
            r == header_spec(b@),
    {
        if b.len() < 26 {
            return Err(FileHeaderSectionError::IncorrectLength);
        }
        let channels = read_u16(b, 12);
        let height = read_u32(b, 14);
        let width = read_u32(b, 18);
        let depth_tag = read_u16(b, 22);
        let mode_tag = read_u16(b, 24);
        if channels < 1 || channels > 56 {
            return Err(FileHeaderSectionError::InvalidChannelCount);
        }
        if height < 1 || height > 30000 {
            return Err(FileHeaderSectionError::InvalidHeight);
        }
        if width < 1 || width > 30000 {
            return Err(FileHeaderSectionError::InvalidWidth);
        }
        let depth = if depth_tag == 1 {
            PsdDepth::One
        } else if depth_tag == 8 {
            PsdDepth::Eight
        } else if depth_tag == 16 {
            PsdDepth::Sixteen
        } else if depth_tag == 32 {
            PsdDepth::ThirtyTwo
        } else {
            return Err(FileHeaderSectionError::InvalidDepth);
        };
        let color_mode = if mode_tag == 0 {
            ColorMode::Bitmap
        } else if mode_tag == 1 {
            ColorMode::Grayscale
        } else if mode_tag == 2 {
            ColorMode::Indexed
        } else if mode_tag == 3 {
            ColorMode::Rgb
        } else if mode_tag == 4 {
            ColorMode::Cmyk
        } else if mode_tag == 7 {
            ColorMode::Multichannel
        } else if mode_tag == 8 {
            ColorMode::Duotone
        } else if mode_tag == 9 {
            ColorMode::Lab
        } else {
            return Err(FileHeaderSectionError::InvalidColorMode);
        };
        Ok(FileHeaderSection { channel_count: channels, height, width, depth, color_mode })
    }
}

} // verus!
