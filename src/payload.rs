use vstd::prelude::*;
use vstd::slice::{slice_subrange, slice_to_vec};

use crate::descriptor::{CompressionType, ImageDef, PixelDataType};
use crate::error::DecodeError;
use crate::le::{le32, read_u32_le};

verus! {

/// The byte that every obfuscated payload byte is XOR-ed with.
pub const XOR_KEY: u8 = 0x53;

/// `s` with every byte XOR-ed with the obfuscation key.
pub open spec fn xor_spec(s: Seq<u8>) -> Seq<u8> {
    Seq::new(s.len(), |i: int| s[i] ^ XOR_KEY)
}

/// The bytes `a..b` of `s`, de-obfuscated when `encrypted` holds.
pub open spec fn extract_spec(s: Seq<u8>, a: int, b: int, encrypted: bool) -> Seq<u8> {
    if encrypted {
        xor_spec(s.subrange(a, b))
    } else {
        s.subrange(a, b)
    }
}

/// Number of bytes that one uncompressed sprite occupies.
pub open spec fn bytes_per_sprite(def: ImageDef) -> nat {
    let px = def.sprite_width_px as nat * def.sprite_height_px as nat;
    match def.pixel_data_type {
        PixelDataType::Bpp(bpp) => (px * bpp as nat + 7) / 8,
        PixelDataType::Direct => px * 2,
    }
}

/// The payloads of an uncompressed image: sprite `j` occupies the fixed span
/// that starts at `j` times the span.
pub open spec fn uncompressed_spec(data: Seq<u8>, def: ImageDef) -> Result<
    Seq<Seq<u8>>,
    DecodeError,
> {
    let span = bytes_per_sprite(def);
    if def.num_sprites as nat * span > data.len() {
        Err(DecodeError::RangeError)
    } else {
        Ok(
            Seq::new(
                def.num_sprites as nat,
                |j: int| extract_spec(data, j * span, j * span + span, def.is_encrypted),
            ),
        )
    }
}

/// Start of sprite `j`'s payload, as read from the offset/length table.
pub open spec fn table_start(data: Seq<u8>, j: int) -> nat {
    le32(data, 8 * j)
}

/// Length of sprite `j`'s payload, as read from the offset/length table.
pub open spec fn table_len(data: Seq<u8>, j: int) -> nat {
    le32(data, 8 * j + 4)
}

/// The payloads of a compressed image. The region begins with one 8-byte
/// record per sprite, a little-endian start offset and length, both relative
/// to the region.
pub open spec fn compressed_spec(data: Seq<u8>, def: ImageDef) -> Result<
    Seq<Seq<u8>>,
    DecodeError,
> {
    let n = def.num_sprites as nat;
    if 8 * n > data.len() {
        Err(DecodeError::TruncatedInput)
    } else if exists|j: int|
        0 <= j < n && table_start(data, j) + table_len(data, j) > data.len() {
        Err(DecodeError::RangeError)
    } else {
        Ok(
            Seq::new(
                n,
                |j: int|
                    extract_spec(
                        data,
                        table_start(data, j) as int,
                        (table_start(data, j) + table_len(data, j)) as int,
                        def.is_encrypted,
                    ),
            ),
        )
    }
}

/// The raw payload of each sprite of an image, from its pixel-data region.
pub open spec fn payloads_spec(data: Seq<u8>, def: ImageDef) -> Result<
    Seq<Seq<u8>>,
    DecodeError,
> {
    if def.compression == CompressionType::Uncompressed {
        uncompressed_spec(data, def)
    } else {
        compressed_spec(data, def)
    }
}

/// The mathematical value of a list of payloads.
pub open spec fn payloads_view(r: Result<Vec<Vec<u8>>, DecodeError>) -> Result<
    Seq<Seq<u8>>,
    DecodeError,
> {
    match r {
        Ok(v) => Ok(v@.map_values(|p: Vec<u8>| p@)),
        Err(e) => Err(e),
    }
}

/// Reverses the obfuscation of a payload; the transform is its own inverse.
pub fn decrypt_pixel_data(data: &[u8]) -> (r: Vec<u8>)
    ensures
        r@ == xor_spec(data@),
{
    let mut out: Vec<u8> = Vec::new();
    let mut i: usize = 0;
    while i < data.len()
        invariant
            i <= data@.len(),
            out@ =~= xor_spec(data@).take(i as int),
        decreases data@.len() - i,
    {
        out.push(data[i] ^ XOR_KEY);
        i = i + 1;
    }
    assert(xor_spec(data@).take(i as int) =~= xor_spec(data@));
    out
}

/// XOR with the obfuscation key undoes itself.
pub proof fn lemma_xor_involution(s: Seq<u8>)
    ensures
        xor_spec(xor_spec(s)) == s,
{
    assert forall|i: int| 0 <= i < s.len() implies xor_spec(xor_spec(s))[i] == s[i] by {
        let b = s[i];
        assert((b ^ 0x53u8) ^ 0x53u8 == b) by (bit_vector);
    }
    assert(xor_spec(xor_spec(s)) =~= s);
}

/// Copies the bytes `a..b` of `data`, de-obfuscating them when asked.
fn extract(data: &[u8], a: usize, b: usize, encrypted: bool) -> (r: Vec<u8>)
    requires
        a <= b <= data@.len(),
    ensures
        r@ == extract_spec(data@, a as int, b as int, encrypted),
{
    let part = slice_subrange(data, a, b);
    if encrypted {
        decrypt_pixel_data(part)
    } else {
        slice_to_vec(part)
    }
}

/// Number of bytes that one uncompressed sprite occupies.
pub fn sprite_span(def: &ImageDef) -> (r: usize)
    requires
        def.wf(),
    ensures
        r as nat == bytes_per_sprite(*def),
        r <= 0xff * 0xff * 2,
{
    proof {
        assert(def.sprite_width_px * def.sprite_height_px <= 0xff * 0xff) by (nonlinear_arith)
            requires
                def.sprite_width_px <= 0xff,
                def.sprite_height_px <= 0xff,
        ;
    }
    let px = def.sprite_width_px * def.sprite_height_px;
    match def.pixel_data_type {
        PixelDataType::Bpp(bpp) => {
            assert(px * bpp <= 0xff * 0xff * 8) by (nonlinear_arith)
                requires
                    px <= 0xff * 0xff,
                    bpp <= 8,
            ;
            let bits = px * bpp;
            if bits % 8 == 0 {
                bits / 8
            } else {
                bits / 8 + 1
            }
        },
        PixelDataType::Direct => px * 2,
    }
}

/// Slices the fixed-size payload of every sprite out of an uncompressed region.
pub fn get_uncompressed_pixel_data(data: &[u8], def: &ImageDef) -> (r: Result<
    Vec<Vec<u8>>,
    DecodeError,
>)
    requires
        def.wf(),
    ensures
        payloads_view(r) == uncompressed_spec(data@, *def),
{
    let span = sprite_span(def);
    let n = def.num_sprites;
    proof {
        assert(n * span <= 0xffff * (0xff * 0xff * 2)) by (nonlinear_arith)
            requires
                n <= 0xffff,
                span <= 0xff * 0xff * 2,
        ;
    }
    if (n as u64) * (span as u64) > data.len() as u64 {
        return Err(DecodeError::RangeError);
    }
    let ghost spec_seq = Seq::new(
        n as nat,
        |j: int| extract_spec(data@, j * span, j * span + span, def.is_encrypted),
    );
    let len = data.len();
    let mut pixel_data_per_sprite: Vec<Vec<u8>> = Vec::new();
    let mut j: usize = 0;
    while j < n
        invariant
            n == def.num_sprites,
            len == data@.len(),
            n * span <= len,
            j <= n,
            pixel_data_per_sprite@.map_values(|p: Vec<u8>| p@) =~= spec_seq.take(j as int),
            spec_seq == Seq::new(
                n as nat,
                |j: int| extract_spec(data@, j * span, j * span + span, def.is_encrypted),
            ),
        decreases n - j,
    {
        proof {
            assert(j * span + span <= n * span) by (nonlinear_arith)
                requires
                    j < n,
                    0 <= span,
            ;
        }
        let a = j * span;
        let b = a + span;
        let pixel_data = extract(data, a, b, def.is_encrypted);
        let ghost before = pixel_data_per_sprite@;
        pixel_data_per_sprite.push(pixel_data);
        assert(pixel_data_per_sprite@ == before.push(pixel_data));
        assert(pixel_data@ == spec_seq[j as int]);
        assert(pixel_data_per_sprite@.map_values(|p: Vec<u8>| p@) =~= before.map_values(
            |p: Vec<u8>| p@,
        ).push(pixel_data@));
        j = j + 1;
    }
    assert(spec_seq.take(n as int) =~= spec_seq);
    Ok(pixel_data_per_sprite)
}

/// Slices every sprite's payload out of a compressed region, by its table.
pub fn get_compressed_pixel_data(data: &[u8], def: &ImageDef) -> (r: Result<
    Vec<Vec<u8>>,
    DecodeError,
>)
    requires
        def.wf(),
    ensures
        payloads_view(r) == compressed_spec(data@, *def),
{
    let n = def.num_sprites;
    if data.len() / 8 < n {
        return Err(DecodeError::TruncatedInput);
    }
    let len = data.len();
    let mut j: usize = 0;
    while j < n
        invariant
            n == def.num_sprites,
            len == data@.len(),
            8 * n <= len,
            j <= n,
            forall|k: int|
                0 <= k < j ==> table_start(data@, k) + table_len(data@, k) <= len,
        decreases n - j,
    {
        let a = read_u32_le(data, 8 * j) as u64;
        let l = read_u32_le(data, 8 * j + 4) as u64;
        if a + l > len as u64 {
            assert(table_start(data@, j as int) + table_len(data@, j as int) > data@.len());
            return Err(DecodeError::RangeError);
        }
        j = j + 1;
    }
    let ghost spec_seq = Seq::new(
        n as nat,
        |j: int|
            extract_spec(
                data@,
                table_start(data@, j) as int,
                (table_start(data@, j) + table_len(data@, j)) as int,
                def.is_encrypted,
            ),
    );
    let mut pixel_data_per_sprite: Vec<Vec<u8>> = Vec::new();
    let mut j: usize = 0;
    while j < n
        invariant
            n == def.num_sprites,
            len == data@.len(),
            8 * n <= len,
            j <= n,
            forall|k: int|
                0 <= k < n ==> table_start(data@, k) + table_len(data@, k) <= len,
            pixel_data_per_sprite@.map_values(|p: Vec<u8>| p@) =~= spec_seq.take(j as int),
            spec_seq == Seq::new(
                n as nat,
                |j: int|
                    extract_spec(
                        data@,
                        table_start(data@, j) as int,
                        (table_start(data@, j) + table_len(data@, j)) as int,
                        def.is_encrypted,
                    ),
            ),
        decreases n - j,
    {
        let a = read_u32_le(data, 8 * j) as usize;
        let l = read_u32_le(data, 8 * j + 4) as usize;
        assert(table_start(data@, j as int) + table_len(data@, j as int) <= len);
        let pixel_data = extract(data, a, a + l, def.is_encrypted);
        let ghost before = pixel_data_per_sprite@;
        pixel_data_per_sprite.push(pixel_data);
        assert(pixel_data_per_sprite@ == before.push(pixel_data));
        assert(pixel_data@ == spec_seq[j as int]);
        assert(pixel_data_per_sprite@.map_values(|p: Vec<u8>| p@) =~= before.map_values(
            |p: Vec<u8>| p@,
        ).push(pixel_data@));
        j = j + 1;
    }
    assert(spec_seq.take(n as int) =~= spec_seq);
    Ok(pixel_data_per_sprite)
}

/// The raw payload of each sprite, laid out by fixed stride when the image
/// is uncompressed and by an offset/length table otherwise.
pub fn get_pixel_data_per_sprite(data: &[u8], def: &ImageDef) -> (r: Result<
    Vec<Vec<u8>>,
    DecodeError,
>)
    requires
        def.wf(),
    ensures
        payloads_view(r) == payloads_spec(data@, *def),
{
    match def.compression {
        CompressionType::Uncompressed => get_uncompressed_pixel_data(data, def),
        _ => get_compressed_pixel_data(data, def),
    }
}

} // verus!
