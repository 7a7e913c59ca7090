use sprite_unpack::color::{get_palettes, parse_rgb565, Rgba8};
use sprite_unpack::compose::{make_spritesheet, make_subimage};
use sprite_unpack::container::{
    decode_container, decode_entry, read_entry_payloads, read_offset_table,
};
use sprite_unpack::descriptor::{read_image_def, CompressionType, ImageDef, PixelDataType};
use sprite_unpack::error::DecodeError;
use sprite_unpack::payload::{
    decrypt_pixel_data, get_compressed_pixel_data, get_pixel_data_per_sprite,
    get_uncompressed_pixel_data,
};
use sprite_unpack::raster::Raster;
use sprite_unpack::rle::{decompress_bytewise, decompress_wordwise};
use sprite_unpack::sprite::{
    bits_to_byte, byte_to_bits, make_direct_sprite, make_indexed_sprite, make_sprite,
    sprite_pixel_counts,
};

const RED: Rgba8 = Rgba8 { r: 255, g: 0, b: 0, a: 255 };
const GREEN: Rgba8 = Rgba8 { r: 0, g: 255, b: 0, a: 255 };
const BLUE: Rgba8 = Rgba8 { r: 0, g: 0, b: 255, a: 255 };
const WHITE: Rgba8 = Rgba8 { r: 255, g: 255, b: 255, a: 255 };
const CLEAR: Rgba8 = Rgba8 { r: 0, g: 0, b: 0, a: 0 };

struct Header {
    data_length: u32,
    flags: u8,
    format: u8,
    num_sprites: u16,
    sprite_w: u8,
    sprite_h: u8,
    grid_w: u8,
    grid_h: u8,
    num_palettes: u8,
    transparent: u16,
    palette_offset: u16,
    pixel_offset: u16,
}

fn header_bytes(h: &Header) -> Vec<u8> {
    let mut v = Vec::new();
    v.extend_from_slice(&h.data_length.to_le_bytes());
    v.push(h.flags);
    v.push(h.format);
    v.extend_from_slice(&h.num_sprites.to_le_bytes());
    v.push(h.sprite_w);
    v.push(h.sprite_h);
    v.push(0xfe);
    v.push(3);
    v.push(h.grid_w);
    v.push(h.grid_h);
    v.push(17);
    v.push(h.num_palettes);
    v.extend_from_slice(&h.transparent.to_le_bytes());
    v.extend_from_slice(&h.palette_offset.to_le_bytes());
    v.extend_from_slice(&h.pixel_offset.to_le_bytes());
    v.extend_from_slice(&0u16.to_le_bytes());
    v
}

fn simple_def(format: PixelDataType, w: usize, h: usize) -> ImageDef {
    ImageDef {
        data_length: 0,
        has_transparency: false,
        is_encrypted: false,
        compression: CompressionType::Uncompressed,
        pixel_data_type: format,
        num_sprites: 1,
        sprite_width_px: w,
        sprite_height_px: h,
        offset_x: 0,
        offset_y: 0,
        image_width: 1,
        image_height: 1,
        num_palettes: 1,
        transparent_color_index: 0,
        palette_data_offset: 0,
        pixel_data_offset: 0,
        num_subimages: 1,
    }
}

/// One 8-bpp, uncompressed 2x2 image with palette red, green, blue, white.
fn small_image() -> Vec<u8> {
    let mut v = header_bytes(&Header {
        data_length: 36,
        flags: 0,
        format: 3,
        num_sprites: 1,
        sprite_w: 2,
        sprite_h: 2,
        grid_w: 1,
        grid_h: 1,
        num_palettes: 1,
        transparent: 0,
        palette_offset: 24,
        pixel_offset: 32,
    });
    for c in [0xF800u16, 0x07E0, 0x001F, 0xFFFF] {
        v.extend_from_slice(&c.to_le_bytes());
    }
    v.extend_from_slice(&[0, 1, 2, 3]);
    v
}

fn pack(indices: &[u8], bpp: usize) -> Vec<u8> {
    let mut out = vec![0u8; (indices.len() * bpp + 7) / 8];
    for (i, &idx) in indices.iter().enumerate() {
        for j in 0..bpp {
            let k = i * bpp + j;
            out[k / 8] |= ((idx >> j) & 1) << (k % 8);
        }
    }
    out
}

fn encode_bytewise(s: &[u8]) -> Vec<u8> {
    let mut out = Vec::new();
    for chunk in s.chunks(127) {
        out.push(0x80 | chunk.len() as u8);
        out.extend_from_slice(chunk);
    }
    out
}

#[test]
fn end_to_end_two_entries() {
    let mut data = Vec::new();
    data.extend_from_slice(&8u32.to_le_bytes());
    data.extend_from_slice(&44u32.to_le_bytes());
    data.extend(small_image());
    data.extend(small_image());
    assert_eq!(read_offset_table(&data).unwrap(), vec![8, 44]);
    let results = decode_container(&data).unwrap();
    assert_eq!(results.len(), 2);
    for r in results {
        let sheet = r.unwrap();
        assert_eq!((sheet.width, sheet.height), (2, 2));
        assert_eq!(sheet.pixels, vec![RED, GREEN, BLUE, WHITE]);
    }
}

#[test]
fn table_longer_than_buffer_is_truncated() {
    let mut data = Vec::new();
    data.extend_from_slice(&64u32.to_le_bytes());
    data.extend_from_slice(&8u32.to_le_bytes());
    assert_eq!(read_offset_table(&data), Err(DecodeError::TruncatedInput));
    assert!(matches!(decode_container(&data), Err(DecodeError::TruncatedInput)));
    assert_eq!(read_offset_table(&[1, 2]), Err(DecodeError::TruncatedInput));
}

#[test]
fn single_entry_table() {
    assert_eq!(read_offset_table(&[4, 0, 0, 0]).unwrap(), vec![4]);
    assert_eq!(read_offset_table(&[6, 0, 0, 0, 1, 0, 0, 0]).unwrap(), vec![6, 1]);
}

#[test]
fn malformed_entry_does_not_stop_siblings() {
    let mut data = Vec::new();
    data.extend_from_slice(&8u32.to_le_bytes());
    data.extend_from_slice(&500u32.to_le_bytes());
    data.extend(small_image());
    let results = decode_container(&data).unwrap();
    assert_eq!(results[0].as_ref().unwrap().pixels, vec![RED, GREEN, BLUE, WHITE]);
    let err = results[1].as_ref().unwrap_err();
    assert_eq!((err.entry, err.offset, err.error), (1, 500, DecodeError::RangeError));
}

#[test]
fn header_fields_are_read_in_order() {
    let bytes = header_bytes(&Header {
        data_length: 0x0102_0304,
        flags: 0x04 | 0x40 | 0x80,
        format: 2,
        num_sprites: 6,
        sprite_w: 8,
        sprite_h: 16,
        grid_w: 2,
        grid_h: 2,
        num_palettes: 3,
        transparent: 0x1234,
        palette_offset: 24,
        pixel_offset: 0x0100,
    });
    let def = read_image_def(&bytes).unwrap();
    assert_eq!(def.data_length, 0x0102_0304);
    assert!(def.has_transparency);
    assert!(def.is_encrypted);
    assert_eq!(def.compression, CompressionType::Wordwise);
    assert_eq!(def.pixel_data_type, PixelDataType::Bpp(4));
    assert_eq!(def.num_sprites, 6);
    assert_eq!((def.sprite_width_px, def.sprite_height_px), (8, 16));
    assert_eq!((def.offset_x, def.offset_y), (-2, 3));
    assert_eq!((def.image_width, def.image_height), (2, 2));
    assert_eq!(def.num_palettes, 3);
    assert_eq!(def.transparent_color_index, 0x1234);
    assert_eq!((def.palette_data_offset, def.pixel_data_offset), (24, 0x100));
    assert_eq!(def.num_subimages, 1);
    assert_eq!(def.subimage_remainder(), 2);
}

#[test]
fn header_flag_variants() {
    let mut h = Header {
        data_length: 0,
        flags: 0x20 | 0x40,
        format: 9,
        num_sprites: 1,
        sprite_w: 1,
        sprite_h: 1,
        grid_w: 1,
        grid_h: 1,
        num_palettes: 1,
        transparent: 0,
        palette_offset: 0,
        pixel_offset: 0,
    };
    let def = read_image_def(&header_bytes(&h)).unwrap();
    assert_eq!(def.compression, CompressionType::Bytewise);
    assert_eq!(def.pixel_data_type, PixelDataType::Direct);
    assert!(!def.has_transparency && !def.is_encrypted);
    h.flags = 0;
    h.format = 0;
    let def = read_image_def(&header_bytes(&h)).unwrap();
    assert_eq!(def.compression, CompressionType::Uncompressed);
    assert_eq!(def.pixel_data_type, PixelDataType::Bpp(1));
}

#[test]
fn header_errors() {
    assert_eq!(read_image_def(&[0u8; 23]), Err(DecodeError::TruncatedInput));
    let h = Header {
        data_length: 0,
        flags: 0,
        format: 0,
        num_sprites: 1,
        sprite_w: 1,
        sprite_h: 1,
        grid_w: 0,
        grid_h: 1,
        num_palettes: 1,
        transparent: 0,
        palette_offset: 0,
        pixel_offset: 0,
    };
    assert_eq!(read_image_def(&header_bytes(&h)), Err(DecodeError::LayoutMismatch));
}

#[test]
fn rgb565_exact_values() {
    assert_eq!(parse_rgb565(0), Rgba8 { r: 0, g: 0, b: 0, a: 255 });
    assert_eq!(parse_rgb565(0xffff), WHITE);
    assert_eq!(parse_rgb565(0xF800), RED);
    assert_eq!(parse_rgb565(0x07E0), GREEN);
    assert_eq!(parse_rgb565(0x001F), BLUE);
    assert_eq!(parse_rgb565(0x8410), Rgba8 { r: 131, g: 129, b: 131, a: 255 });
}

#[test]
fn palettes_split_and_drop_extra_colors() {
    let mut bytes = Vec::new();
    for c in [0xF800u16, 0x07E0, 0x001F, 0xFFFF, 0x0000] {
        bytes.extend_from_slice(&c.to_le_bytes());
    }
    bytes.push(0xaa);
    let p = get_palettes(&bytes, 2, 2);
    assert_eq!(p, vec![vec![RED, GREEN], vec![BLUE, WHITE]]);
    let p = get_palettes(&bytes, 4, 3);
    assert_eq!(p.len(), 3);
    assert_eq!(p[0], vec![RED, GREEN, BLUE, WHITE]);
    assert_eq!(p[1], vec![Rgba8 { r: 0, g: 0, b: 0, a: 255 }]);
    assert!(p[2].is_empty());
}

#[test]
fn xor_twice_is_identity() {
    let data: Vec<u8> = (0..=255u8).collect();
    let once = decrypt_pixel_data(&data);
    assert_eq!(once[0], 0x53);
    assert_eq!(once[0x53], 0);
    assert_ne!(once, data);
    assert_eq!(decrypt_pixel_data(&once), data);
}

#[test]
fn bytewise_literal_and_repeat() {
    assert_eq!(decompress_bytewise(&[0x83, 1, 2, 3, 0x04, 9]), vec![1, 2, 3, 9, 9, 9, 9]);
    assert_eq!(decompress_bytewise(&[]), Vec::<u8>::new());
    // a literal run longer than the input skips its control byte only
    assert_eq!(decompress_bytewise(&[0x85, 0x02, 7]), vec![7, 7]);
    // a repeat control with nothing after it ends the input
    assert_eq!(decompress_bytewise(&[0x81, 5, 0x03]), vec![5]);
}

#[test]
fn wordwise_literal_and_repeat() {
    let data = [2, 0, 0, 0x80, 1, 2, 3, 4, 5, 6, 7, 8, 3, 0, 0, 0, 9, 8, 7, 6, 1, 2];
    assert_eq!(
        decompress_wordwise(&data),
        vec![1, 2, 3, 4, 5, 6, 7, 8, 9, 8, 7, 6, 9, 8, 7, 6, 9, 8, 7, 6]
    );
    // bits 28..30 of the control do not count
    assert_eq!(decompress_wordwise(&[1, 0, 0, 0x70, 1, 2, 3, 4]), vec![1, 2, 3, 4]);
}

#[test]
fn rle_round_trip() {
    let original: Vec<u8> = (0..300u32).map(|i| (i * 7 % 251) as u8).collect();
    assert_eq!(decompress_bytewise(&encode_bytewise(&original)), original);
    let mut encoded = vec![75, 0, 0, 0x80];
    encoded.extend_from_slice(&original);
    assert_eq!(decompress_wordwise(&encoded), original);
}

#[test]
fn bits_of_a_byte() {
    assert_eq!(byte_to_bits(0b1010_0110), vec![0, 1, 1, 0, 0, 1, 0, 1]);
    assert_eq!(bits_to_byte(&[0, 1, 1, 0, 0, 1, 0, 1]), 0b1010_0110);
    assert_eq!(bits_to_byte(&[1, 1]), 3);
    assert_eq!(bits_to_byte(&[]), 0);
}

#[test]
fn pack_unpack_inverse() {
    for bpp in [1usize, 2, 4, 8] {
        let max = if bpp == 8 { 255 } else { (1u16 << bpp) as u8 - 1 };
        let indices: Vec<u8> = (0..6u16).map(|i| ((i * 5) % (max as u16 + 1)) as u8).collect();
        let palette: Vec<Rgba8> = (0..=max).map(|c| Rgba8 { r: c, g: 0, b: 0, a: 255 }).collect();
        let def = simple_def(PixelDataType::Bpp(bpp), 3, 2);
        let sprite = make_indexed_sprite(&pack(&indices, bpp), &def, bpp, &palette).unwrap();
        let got: Vec<u8> = sprite.pixels.iter().map(|p| p.r).collect();
        assert_eq!(got, indices, "bpp {}", bpp);
    }
}

#[test]
fn indexed_sprite_placement() {
    let palette = vec![RED, GREEN, BLUE, WHITE];
    let def = simple_def(PixelDataType::Bpp(2), 3, 1);
    // groups 0,1,2 fill the row; group 3 is dropped
    let s = make_indexed_sprite(&[0b11_10_01_00], &def, 2, &palette).unwrap();
    assert_eq!(s.pixels, vec![RED, GREEN, BLUE]);
    // too few groups: the rest stays blank
    let def = simple_def(PixelDataType::Bpp(8), 2, 2);
    let s = make_indexed_sprite(&[3], &def, 8, &palette).unwrap();
    assert_eq!(s.pixels, vec![WHITE, CLEAR, CLEAR, CLEAR]);
}

#[test]
fn indexed_lookup_out_of_range() {
    let def = simple_def(PixelDataType::Bpp(8), 2, 1);
    assert_eq!(
        make_indexed_sprite(&[0, 5], &def, 8, &[RED, GREEN]).map(|r| r.pixels),
        Err(DecodeError::PaletteIndexOutOfRange)
    );
}

#[test]
fn transparent_marker_wins() {
    let mut def = simple_def(PixelDataType::Bpp(8), 2, 1);
    def.has_transparency = true;
    def.transparent_color_index = 1;
    let s = make_indexed_sprite(&[0, 1], &def, 8, &[RED, GREEN]).unwrap();
    assert_eq!(s.pixels, vec![RED, CLEAR]);
    // the marker needs no palette entry
    def.transparent_color_index = 9;
    let s = make_indexed_sprite(&[9, 0], &def, 8, &[RED]).unwrap();
    assert_eq!(s.pixels, vec![CLEAR, RED]);
    // without declared transparency the palette colour is used
    def.has_transparency = false;
    def.transparent_color_index = 1;
    let s = make_indexed_sprite(&[0, 1], &def, 8, &[RED, GREEN]).unwrap();
    assert_eq!(s.pixels, vec![RED, GREEN]);

    let mut def = simple_def(PixelDataType::Direct, 2, 1);
    def.has_transparency = true;
    def.transparent_color_index = 0xF800;
    let s = make_direct_sprite(&[0x00, 0xF8, 0x1F, 0x00], &def);
    assert_eq!(s.pixels, vec![CLEAR, BLUE]);
}

#[test]
fn direct_sprite_samples() {
    let def = simple_def(PixelDataType::Direct, 2, 2);
    let s = make_direct_sprite(&[0x00, 0xF8, 0xE0, 0x07, 0x1F], &def);
    assert_eq!(s.pixels, vec![RED, GREEN, CLEAR, CLEAR]);
}

#[test]
fn compressed_encrypted_sprite() {
    let mut def = simple_def(PixelDataType::Bpp(8), 2, 2);
    def.compression = CompressionType::Bytewise;
    def.is_encrypted = true;
    let compressed = [0x82u8, 0, 1, 0x02, 3];
    let mut region = Vec::new();
    region.extend_from_slice(&8u32.to_le_bytes());
    region.extend_from_slice(&(compressed.len() as u32).to_le_bytes());
    region.extend(compressed.iter().map(|b| b ^ 0x53));
    let payloads = get_pixel_data_per_sprite(&region, &def).unwrap();
    assert_eq!(payloads, vec![compressed.to_vec()]);
    let s = make_sprite(&payloads[0], &def, &[RED, GREEN, BLUE, WHITE]).unwrap();
    assert_eq!(s.pixels, vec![RED, GREEN, WHITE, WHITE]);
}

#[test]
fn uncompressed_payload_spans() {
    let mut def = simple_def(PixelDataType::Bpp(4), 3, 1);
    def.num_sprites = 2;
    let data = [1u8, 2, 3, 4, 5];
    assert_eq!(get_uncompressed_pixel_data(&data, &def).unwrap(), vec![vec![1, 2], vec![3, 4]]);
    def.num_sprites = 3;
    assert_eq!(get_uncompressed_pixel_data(&data, &def), Err(DecodeError::RangeError));
    let mut def = simple_def(PixelDataType::Direct, 1, 2);
    def.num_sprites = 1;
    assert_eq!(get_uncompressed_pixel_data(&data, &def).unwrap(), vec![vec![1, 2, 3, 4]]);
}

#[test]
fn compressed_payload_table_errors() {
    let mut def = simple_def(PixelDataType::Bpp(8), 1, 1);
    def.compression = CompressionType::Wordwise;
    assert_eq!(get_compressed_pixel_data(&[0u8; 7], &def), Err(DecodeError::TruncatedInput));
    let mut region = Vec::new();
    region.extend_from_slice(&8u32.to_le_bytes());
    region.extend_from_slice(&3u32.to_le_bytes());
    region.extend_from_slice(&[1, 2]);
    assert_eq!(get_compressed_pixel_data(&region, &def), Err(DecodeError::RangeError));
    region.push(3);
    assert_eq!(get_compressed_pixel_data(&region, &def).unwrap(), vec![vec![1, 2, 3]]);
}

fn solid(w: usize, h: usize, c: Rgba8) -> Raster {
    Raster { width: w, height: h, pixels: vec![c; w * h] }
}

#[test]
fn subimage_places_each_sprite_once() {
    let mut def = simple_def(PixelDataType::Direct, 2, 1);
    def.image_width = 2;
    def.image_height = 2;
    let sprites = vec![solid(2, 1, RED), solid(2, 1, GREEN), solid(2, 1, BLUE), solid(2, 1, WHITE)];
    let sub = make_subimage(&sprites, &def).unwrap();
    assert_eq!((sub.width, sub.height), (4, 2));
    assert_eq!(sub.pixels, vec![RED, RED, GREEN, GREEN, BLUE, BLUE, WHITE, WHITE]);
    assert_eq!(make_subimage(&sprites[..3], &def).map(|r| r.width), Err(DecodeError::LayoutMismatch));
    let wrong = vec![solid(2, 1, RED), solid(1, 1, GREEN), solid(2, 1, BLUE), solid(2, 1, WHITE)];
    assert_eq!(make_subimage(&wrong, &def).map(|r| r.width), Err(DecodeError::LayoutMismatch));
}

#[test]
fn spritesheet_rows_are_palettes() {
    let mut def = simple_def(PixelDataType::Bpp(8), 1, 1);
    def.num_sprites = 3;
    def.image_width = 1;
    def.image_height = 1;
    def.num_subimages = 3;
    def.num_palettes = 2;
    let payloads = vec![vec![0u8], vec![1], vec![0]];
    let palettes = vec![vec![RED, GREEN], vec![BLUE, WHITE]];
    let sheet = make_spritesheet(&def, &payloads, &palettes).unwrap();
    assert_eq!((sheet.width, sheet.height), (3, 2));
    assert_eq!(sheet.pixels, vec![RED, GREEN, RED, BLUE, WHITE, BLUE]);
    let short = vec![vec![RED, GREEN]];
    assert_eq!(
        make_spritesheet(&def, &payloads, &short).map(|r| r.width),
        Err(DecodeError::LayoutMismatch)
    );
    let bad = vec![vec![RED], vec![BLUE, WHITE]];
    assert_eq!(
        make_spritesheet(&def, &payloads, &bad).map(|r| r.width),
        Err(DecodeError::PaletteIndexOutOfRange)
    );
}

#[test]
fn entry_with_bad_pixel_region() {
    let mut img = small_image();
    img[0] = 200;
    assert_eq!(decode_entry(&img, 0).map(|r| r.width), Err(DecodeError::RangeError));
    assert_eq!(decode_entry(&img, 100).map(|r| r.width), Err(DecodeError::RangeError));
    assert_eq!(decode_entry(&small_image(), 0).unwrap().pixels, vec![RED, GREEN, BLUE, WHITE]);
}

#[test]
fn dropped_groups_are_not_looked_up() {
    let def = simple_def(PixelDataType::Bpp(8), 1, 1);
    let s = make_indexed_sprite(&[0, 5], &def, 8, &[RED]).unwrap();
    assert_eq!(s.pixels, vec![RED]);
    let def = simple_def(PixelDataType::Bpp(4), 1, 1);
    let s = make_indexed_sprite(&[0xf1], &def, 4, &[RED, GREEN]).unwrap();
    assert_eq!(s.pixels, vec![GREEN]);
}

#[test]
fn pixel_counts_of_payloads() {
    let def = simple_def(PixelDataType::Bpp(2), 3, 2);
    assert_eq!(sprite_pixel_counts(&[0, 0], &def), (6, 8));
    let def = simple_def(PixelDataType::Direct, 2, 2);
    assert_eq!(sprite_pixel_counts(&[1, 2, 3, 4, 5], &def), (4, 2));
    let mut def = simple_def(PixelDataType::Bpp(8), 2, 2);
    def.compression = CompressionType::Bytewise;
    assert_eq!(sprite_pixel_counts(&[0x05, 7], &def), (4, 5));
}

#[test]
fn entry_payloads_and_header() {
    let (def, payloads) = read_entry_payloads(&small_image(), 0).unwrap();
    assert_eq!(def.num_sprites, 1);
    assert_eq!(def.pixel_data_type, PixelDataType::Bpp(8));
    assert_eq!(payloads, vec![vec![0, 1, 2, 3]]);
    let mut img = small_image();
    img[20] = 10;
    assert_eq!(read_entry_payloads(&img, 0).map(|p| p.1), Err(DecodeError::RangeError));
}

#[test]
fn wordwise_repeat_keeps_unit_bytes() {
    let data = [2, 0, 0, 0, 0xa, 0xb, 0xc, 0xd];
    assert_eq!(decompress_wordwise(&data), vec![0xa, 0xb, 0xc, 0xd, 0xa, 0xb, 0xc, 0xd]);
}
