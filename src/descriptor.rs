use vstd::prelude::*;

use crate::error::DecodeError;
use crate::le::{le16, le32, read_u16_le, read_u32_le};

verus! {

/// Size in bytes of the fixed header at the start of each image.
pub const HEADER_LEN: usize = 24;

/// How each sprite's payload is compressed.
#[derive(Clone, Copy, Debug, PartialEq, Eq, Structural)]
pub enum CompressionType {
    Uncompressed,
    Bytewise,
    Wordwise,
}

/// How pixels are stored: palette indices of a given bit width, or 16-bit colours.
#[derive(Clone, Copy, Debug, PartialEq, Eq, Structural)]
pub enum PixelDataType {
    Bpp(usize),
    Direct,
}

/// The header of one image of the container.
#[derive(Clone, Copy, Debug, PartialEq, Eq, Structural)]
pub struct ImageDef {
    pub data_length: usize,
    pub has_transparency: bool,
    pub is_encrypted: bool,
    pub compression: CompressionType,
    pub pixel_data_type: PixelDataType,
    pub num_sprites: usize,
    pub sprite_width_px: usize,
    pub sprite_height_px: usize,
    pub offset_x: i8,
    pub offset_y: i8,
    pub image_width: usize,
    pub image_height: usize,
    pub num_palettes: usize,
    pub transparent_color_index: u16,
    pub palette_data_offset: usize,
    pub pixel_data_offset: usize,
    pub num_subimages: usize,
}

impl ImageDef {
    /// The header's fields hold values that its byte layout can express, and
    /// the subimage count is derived from the sprite count and the grid.
    pub open spec fn wf(&self) -> bool {
        &&& self.data_length <= 0xffff_ffff
        &&& self.num_sprites <= 0xffff
        &&& self.sprite_width_px <= 0xff
        &&& self.sprite_height_px <= 0xff
        &&& 0 < self.image_width <= 0xff
        &&& 0 < self.image_height <= 0xff
        &&& self.num_palettes <= 0xff
        &&& self.palette_data_offset <= 0xffff
        &&& self.pixel_data_offset <= 0xffff
        &&& self.num_subimages as nat == self.num_sprites as nat / self.sprites_per_subimage()
        &&& match self.pixel_data_type {
            PixelDataType::Bpp(b) => b == 1 || b == 2 || b == 4 || b == 8,
            PixelDataType::Direct => true,
        }
    }

    /// Number of sprites that make up one subimage.
    pub open spec fn sprites_per_subimage(&self) -> nat {
        (self.image_width * self.image_height) as nat
    }

    /// Number of sprites left over after the last whole subimage.
    pub fn subimage_remainder(&self) -> (r: usize)
        requires
            self.wf(),
        ensures
            r as nat == self.num_sprites as nat % self.sprites_per_subimage(),
    {
        proof {
            vstd::arithmetic::mul::lemma_mul_strictly_positive(
                self.image_width as int,
                self.image_height as int,
            );
            assert(self.image_width * self.image_height <= 0xff * 0xff) by (nonlinear_arith)
                requires
                    self.image_width <= 0xff,
                    self.image_height <= 0xff,
            ;
        }
        self.num_sprites % (self.image_width * self.image_height)
    }
}

/// Whether bit `k` of the byte `b` is set.
pub open spec fn flag_bit(b: u8, k: nat) -> bool {
    (b as nat / vstd::arithmetic::power2::pow2(k)) % 2 == 1
}

/// The compression mode that a flag byte selects; bytewise wins over wordwise.
pub open spec fn compression_of(flags: u8) -> CompressionType {
    if flag_bit(flags, 5) {
        CompressionType::Bytewise
    } else if flag_bit(flags, 6) {
        CompressionType::Wordwise
    } else {
        CompressionType::Uncompressed
    }
}

/// The pixel format that a format selector byte selects.
pub open spec fn pixel_type_of(sel: u8) -> PixelDataType {
    if sel == 0 {
        PixelDataType::Bpp(1)
    } else if sel == 1 {
        PixelDataType::Bpp(2)
    } else if sel == 2 {
        PixelDataType::Bpp(4)
    } else if sel == 3 {
        PixelDataType::Bpp(8)
    } else {
        PixelDataType::Direct
    }
}

/// The header that the bytes `b` start with, or why there is none.
pub open spec fn image_def_of(b: Seq<u8>) -> Result<ImageDef, DecodeError> {
    if b.len() < HEADER_LEN {
        Err(DecodeError::TruncatedInput)
    } else if b[12] == 0 || b[13] == 0 {
        Err(DecodeError::LayoutMismatch)
    } else {
        Ok(
            ImageDef {
                data_length: le32(b, 0) as usize,
                has_transparency: flag_bit(b[4], 2),
                is_encrypted: flag_bit(b[4], 7),
                compression: compression_of(b[4]),
                pixel_data_type: pixel_type_of(b[5]),
                num_sprites: le16(b, 6) as usize,
                sprite_width_px: b[8] as usize,
                sprite_height_px: b[9] as usize,
                offset_x: b[10] as i8,
                offset_y: b[11] as i8,
                image_width: b[12] as usize,
                image_height: b[13] as usize,
                num_palettes: b[15] as usize,
                transparent_color_index: le16(b, 16) as u16,
                palette_data_offset: le16(b, 18) as usize,
                pixel_data_offset: le16(b, 20) as usize,
                num_subimages: (le16(b, 6) / ((b[12] as nat) * (b[13] as nat))) as usize,
            },
        )
    }
}

/// Parses the fixed header at the start of `bytes`. A grid with no cells is
/// refused, since no subimage could be formed from it.
pub fn read_image_def(bytes: &[u8]) -> (r: Result<ImageDef, DecodeError>)
    ensures
        r == image_def_of(bytes@),
        r is Ok ==> r->Ok_0.wf(),
{
    if bytes.len() < HEADER_LEN {
        return Err(DecodeError::TruncatedInput);
    }
    let data_length = read_u32_le(bytes, 0);

    let flags = bytes[4];
    proof {
        vstd::arithmetic::power2::lemma2_to64();
        assert((flags & 0x04u8 != 0) == ((flags / 4) % 2 == 1)) by (bit_vector);
        assert((flags & 0x20u8 != 0) == ((flags / 32) % 2 == 1)) by (bit_vector);
        assert((flags & 0x40u8 != 0) == ((flags / 64) % 2 == 1)) by (bit_vector);
        assert((flags & 0x80u8 != 0) == ((flags / 128) % 2 == 1)) by (bit_vector);
    }
    let has_transparency = (flags & 0x04u8) != 0;
    let compression = if (flags & 0x20u8) != 0 {
        CompressionType::Bytewise
    } else if (flags & 0x40u8) != 0 {
        CompressionType::Wordwise
    } else {
        CompressionType::Uncompressed
    };
    let is_encrypted = (flags & 0x80u8) != 0;

    let pixel_data_type = match bytes[5] {
        0 => PixelDataType::Bpp(1),
        1 => PixelDataType::Bpp(2),
        2 => PixelDataType::Bpp(4),
        3 => PixelDataType::Bpp(8),
        _ => PixelDataType::Direct,
    };

    let num_sprites = read_u16_le(bytes, 6) as usize;
    let sprite_width_px = bytes[8] as usize;
    let sprite_height_px = bytes[9] as usize;
    let offset_x = bytes[10] as i8;
    let offset_y = bytes[11] as i8;
    let image_width = bytes[12] as usize;
    let image_height = bytes[13] as usize;
    let num_palettes = bytes[15] as usize;
    let transparent_color_index = read_u16_le(bytes, 16);
    let palette_data_offset = read_u16_le(bytes, 18) as usize;
    let pixel_data_offset = read_u16_le(bytes, 20) as usize;

    if image_width == 0 || image_height == 0 {
        return Err(DecodeError::LayoutMismatch);
    }
    proof {
        assert(image_width * image_height <= 0xff * 0xff) by (nonlinear_arith)
            requires
                image_width <= 0xff,
                image_height <= 0xff,
        ;
        vstd::arithmetic::mul::lemma_mul_strictly_positive(
            image_width as int,
            image_height as int,
        );
    }
    let num_subimages = num_sprites / (image_width * image_height);

    Ok(
        ImageDef {
            data_length: data_length as usize,
            has_transparency,
            is_encrypted,
            compression,
            pixel_data_type,
            num_sprites,
            sprite_width_px,
            sprite_height_px,
            offset_x,
            offset_y,
            image_width,
            image_height,
            num_palettes,
            transparent_color_index,
            palette_data_offset,
            pixel_data_offset,
            num_subimages,
        },
    )
}

} // verus!
