use vstd::arithmetic::power2::{lemma2_to64, lemma_pow2_unfold, pow2};
use vstd::prelude::*;
use vstd::slice::slice_subrange;

use crate::color::{parse_rgb565, rgb565_spec, transparent, transparent_spec, Rgba8};
use crate::descriptor::{CompressionType, ImageDef, PixelDataType};
use crate::error::DecodeError;
use crate::le::{le16, read_u16_le};
use crate::raster::{Grid, Raster};
use crate::rle::{bytewise_decoded, decompress_bytewise, decompress_wordwise, wordwise_decoded};

verus! {

/// Bit `i` of `v`, counting from the least significant.
pub open spec fn bit_of(v: nat, i: nat) -> u8
    decreases i,
{
    if i == 0 {
        (v % 2) as u8
    } else {
        bit_of(v / 2, (i - 1) as nat)
    }
}

/// The number whose bits, least significant first, are `s`.
pub open spec fn bits_value(s: Seq<u8>) -> nat
    decreases s.len(),
{
    if s.len() == 0 {
        0
    } else {
        s[0] as nat + 2 * bits_value(s.drop_first())
    }
}

/// Every element of `s` is a bit.
pub open spec fn is_bits(s: Seq<u8>) -> bool {
    forall|i: int| 0 <= i < s.len() ==> s[i] <= 1
}

/// The eight bits of a byte, least significant first.
pub open spec fn byte_bits(b: u8) -> Seq<u8> {
    Seq::new(8, |t: int| bit_of(b as nat, t as nat))
}

/// The bit stream of `data`: each byte's bits, least significant first.
pub open spec fn bits_of(data: Seq<u8>) -> Seq<u8> {
    Seq::new(data.len() * 8, |k: int| bit_of(data[k / 8] as nat, (k % 8) as nat))
}

/// Number of whole `bpp`-bit groups in the bit stream of `data`.
pub open spec fn group_count(data: Seq<u8>, bpp: nat) -> nat {
    data.len() * 8 / bpp
}

/// The palette index that the `i`-th group of `bpp` bits of `data` encodes.
pub open spec fn index_at(data: Seq<u8>, bpp: nat, i: int) -> nat {
    bits_value(bits_of(data).subrange(i * bpp, i * bpp + bpp))
}

/// Whether a raw index or sample is the image's transparent marker.
pub open spec fn is_marker(def: ImageDef, v: nat) -> bool {
    def.has_transparency && v == def.transparent_color_index as nat
}

/// The colour of a pixel whose palette index is `idx`.
pub open spec fn indexed_color(def: ImageDef, palette: Seq<Rgba8>, idx: nat) -> Rgba8 {
    if is_marker(def, idx) {
        transparent_spec()
    } else {
        palette[idx as int]
    }
}

/// The colour of a pixel given as a 16-bit sample.
pub open spec fn direct_color(def: ImageDef, v: nat) -> Rgba8 {
    if is_marker(def, v) {
        transparent_spec()
    } else {
        rgb565_spec(v as u16)
    }
}

/// Some group of the stream that colours a pixel names a colour that the
/// palette lacks; groups past the last pixel are never looked up.
pub open spec fn indexed_lookup_fails(
    data: Seq<u8>,
    def: ImageDef,
    bpp: nat,
    palette: Seq<Rgba8>,
) -> bool {
    exists|i: int|
        0 <= i < group_count(data, bpp) && i < def.sprite_width_px * def.sprite_height_px
            && #[trigger] lookup_fails_at(data, def, bpp, palette, i)
}

/// The sprite that indexed pixel bytes describe: group `i` of the bit stream
/// colours pixel `i` in row-major order; groups past the last pixel are
/// dropped and pixels past the last group stay blank.
pub open spec fn indexed_sprite_spec(
    data: Seq<u8>,
    def: ImageDef,
    bpp: nat,
    palette: Seq<Rgba8>,
) -> Result<Grid, DecodeError> {
    if indexed_lookup_fails(data, def, bpp, palette) {
        Err(DecodeError::PaletteIndexOutOfRange)
    } else {
        let w = def.sprite_width_px as nat;
        let h = def.sprite_height_px as nat;
        Ok(
            Grid {
                width: w,
                height: h,
                pixels: Seq::new(
                    w * h,
                    |p: int|
                        if p < group_count(data, bpp) {
                            indexed_color(def, palette, index_at(data, bpp, p))
                        } else {
                            transparent_spec()
                        },
                ),
            },
        )
    }
}

/// The sprite that 16-bit colour samples describe: sample `i` colours pixel
/// `i` in row-major order.
pub open spec fn direct_sprite_spec(data: Seq<u8>, def: ImageDef) -> Grid {
    let w = def.sprite_width_px as nat;
    let h = def.sprite_height_px as nat;
    Grid {
        width: w,
        height: h,
        pixels: Seq::new(
            w * h,
            |p: int|
                if p < data.len() / 2 {
                    direct_color(def, le16(data, 2 * p))
                } else {
                    transparent_spec()
                },
        ),
    }
}

/// A sprite payload after decompression.
pub open spec fn decompressed(c: CompressionType, data: Seq<u8>) -> Seq<u8> {
    match c {
        CompressionType::Uncompressed => data,
        CompressionType::Bytewise => bytewise_decoded(data),
        CompressionType::Wordwise => wordwise_decoded(data),
    }
}

/// The sprite that a raw payload describes, drawn with `palette`.
pub open spec fn sprite_spec(data: Seq<u8>, def: ImageDef, palette: Seq<Rgba8>) -> Result<
    Grid,
    DecodeError,
> {
    let px = decompressed(def.compression, data);
    match def.pixel_data_type {
        PixelDataType::Bpp(bpp) => indexed_sprite_spec(px, def, bpp as nat, palette),
        PixelDataType::Direct => Ok(direct_sprite_spec(px, def)),
    }
}

/// A sprite that can be drawn has the size that the header gives.
pub proof fn lemma_sprite_size(data: Seq<u8>, def: ImageDef, palette: Seq<Rgba8>)
    ensures
        sprite_spec(data, def, palette) is Ok ==> sprite_spec(data, def, palette)->Ok_0.width
            == def.sprite_width_px && sprite_spec(data, def, palette)->Ok_0.height
            == def.sprite_height_px,
{
}

proof fn lemma_bit_of_is_bit(v: nat, i: nat)
    ensures
        bit_of(v, i) <= 1,
    decreases i,
{
    if i > 0 {
        lemma_bit_of_is_bit(v / 2, (i - 1) as nat);
    }
}

proof fn lemma_bits_value_bound(s: Seq<u8>)
    requires
        is_bits(s),
    ensures
        bits_value(s) < pow2(s.len()),
    decreases s.len(),
{
    if s.len() == 0 {
        lemma2_to64();
    } else {
        lemma_bits_value_bound(s.drop_first());
        lemma_pow2_unfold(s.len());
    }
}

/// The eight bits of a byte, least significant first.
pub fn byte_to_bits(byte: u8) -> (r: Vec<u8>)
    ensures
        r@ == byte_bits(byte),
        is_bits(r@),
{
    let mut bits: Vec<u8> = Vec::new();
    let mut v: u8 = byte;
    let mut i: usize = 0;
    while i < 8
        invariant
            i <= 8,
            forall|t: nat| t + i < 8 ==> bit_of(byte as nat, (t + i) as nat) == #[trigger] bit_of(v as nat, t),
            bits@ =~= byte_bits(byte).take(i as int),
        decreases 8 - i,
    {
        assert(bit_of(byte as nat, (0 + i) as nat) == bit_of(v as nat, 0));
        assert(v & 1u8 == v % 2) by (bit_vector);
        assert(v >> 1u8 == v / 2) by (bit_vector);
        bits.push(v & 1u8);
        let ghost old_v = v;
        v = v >> 1u8;
        i = i + 1;
        assert forall|t: nat| t + i < 8 implies bit_of(byte as nat, (t + i) as nat) == #[trigger] bit_of(
            v as nat,
            t,
        ) by {
            assert(bit_of(byte as nat, ((t + 1) + (i - 1)) as nat) == bit_of(old_v as nat, (t + 1) as nat));
        }
    }
    assert forall|t: int| 0 <= t < 8 implies byte_bits(byte)[t] <= 1 by {
        lemma_bit_of_is_bit(byte as nat, t as nat);
    }
    bits
}

/// The number whose bits, least significant first, are `bits`.
pub fn bits_to_byte(bits: &[u8]) -> (r: u8)
    requires
        bits@.len() <= 8,
        is_bits(bits@),
    ensures
        r as nat == bits_value(bits@),
{
    let mut i: usize = bits.len();
    let mut byte: u8 = 0;
    proof {
        assert(bits@.skip(i as int) =~= Seq::<u8>::empty());
    }
    while i > 0
        invariant
            i <= bits@.len() <= 8,
            is_bits(bits@),
            byte as nat == bits_value(bits@.skip(i as int)),
        decreases i,
    {
        i = i - 1;
        let ghost s = bits@.skip(i as int);
        proof {
            assert(s.drop_first() =~= bits@.skip(i + 1));
            assert(is_bits(s));
            lemma_bits_value_bound(s);
            assert(pow2(s.len()) <= 256) by {
                lemma2_to64();
                if s.len() < 8 {
                    vstd::arithmetic::power2::lemma_pow2_strictly_increases(s.len(), 8);
                }
            }
        }
        byte = 2 * byte + bits[i];
    }
    assert(bits@.skip(0) =~= bits@);
    byte
}

/// Group `g` of the byte `bi` covers the same bits of the stream as of the byte.
proof fn lemma_group_bits(data: Seq<u8>, bpp: nat, bi: int, g: int)
    requires
        bpp == 1 || bpp == 2 || bpp == 4 || bpp == 8,
        0 <= bi < data.len(),
        0 <= g < 8nat / bpp,
    ensures
        (bi * (8nat / bpp) + g) * bpp == bi * 8 + g * bpp,
        g * bpp + bpp <= 8,
        bits_of(data).subrange(bi * 8 + g * bpp, bi * 8 + g * bpp + bpp) == byte_bits(
            data[bi],
        ).subrange(g * bpp, g * bpp + bpp),
{
    let gpb = 8nat / bpp;
    assert(gpb * bpp == 8);
    assert((bi * gpb + g) * bpp == bi * 8 + g * bpp) by (nonlinear_arith)
        requires
            gpb * bpp == 8,
    ;
    assert(g * bpp + bpp <= 8) by (nonlinear_arith)
        requires
            gpb * bpp == 8,
            g < gpb,
            0 <= g,
    ;
    assert(bi * 8 + g * bpp + bpp <= data.len() * 8) by (nonlinear_arith)
        requires
            g * bpp + bpp <= 8,
            bi < data.len(),
    ;
    let lhs = bits_of(data).subrange(bi * 8 + g * bpp, bi * 8 + g * bpp + bpp);
    let rhs = byte_bits(data[bi]).subrange(g * bpp, g * bpp + bpp);
    assert forall|t: int| 0 <= t < bpp implies #[trigger] lhs[t] == rhs[t] by {
        vstd::arithmetic::div_mod::lemma_fundamental_div_mod_converse(
            bi * 8 + g * bpp + t,
            8,
            bi,
            g * bpp + t,
        );
    }
    assert(bits_of(data).subrange(bi * 8 + g * bpp, bi * 8 + g * bpp + bpp) =~= byte_bits(
        data[bi],
    ).subrange(g * bpp, g * bpp + bpp));
}

} // verus!

verus! {

/// Whether group `i` names a colour that the palette lacks.
pub open spec fn lookup_fails_at(
    data: Seq<u8>,
    def: ImageDef,
    bpp: nat,
    palette: Seq<Rgba8>,
    i: int,
) -> bool {
    !is_marker(def, index_at(data, bpp, i)) && index_at(data, bpp, i) >= palette.len()
}

proof fn lemma_group_count(len: nat, bpp: nat)
    requires
        bpp == 1 || bpp == 2 || bpp == 4 || bpp == 8,
    ensures
        len * 8 / bpp == len * (8nat / bpp),
{
    let gpb = 8nat / bpp;
    assert(gpb * bpp == 8);
    assert(len * 8 == (len * gpb) * bpp) by (nonlinear_arith)
        requires
            gpb * bpp == 8,
    ;
    vstd::arithmetic::div_mod::lemma_fundamental_div_mod_converse(
        (len * 8) as int,
        bpp as int,
        (len * gpb) as int,
        0,
    );
}

/// Draws a sprite whose pixels are palette indices of `bpp` bits each.
pub fn make_indexed_sprite(bytes: &[u8], def: &ImageDef, bpp: usize, palette: &[Rgba8]) -> (r:
    Result<Raster, DecodeError>)
    requires
        def.wf(),
        bpp == 1 || bpp == 2 || bpp == 4 || bpp == 8,
    ensures
        crate::raster::raster_view(r) == indexed_sprite_spec(bytes@, *def, bpp as nat, palette@),
        r is Ok ==> r->Ok_0@.wf(),
{
    let w = def.sprite_width_px;
    let h = def.sprite_height_px;
    proof {
        assert(w * h <= 0xff * 0xff) by (nonlinear_arith)
            requires
                w <= 0xff,
                h <= 0xff,
        ;
    }
    let n = w * h;
    let gpb = 8 / bpp;
    let len = bytes.len();
    let ghost nb = bpp as nat;
    let mut pixels: Vec<Rgba8> = Vec::new();
    let mut bi: usize = 0;
    while bi < len
        invariant
            len == bytes@.len(),
            bi <= len,
            n == w * h,
            w == def.sprite_width_px,
            h == def.sprite_height_px,
            nb == bpp,
            gpb == 8nat / nb,
            bpp == 1 || bpp == 2 || bpp == 4 || bpp == 8,
            pixels@.len() == if bi * gpb < n {
                bi * gpb
            } else {
                n as int
            },
            forall|p: int|
                0 <= p < pixels@.len() ==> pixels@[p] == indexed_color(
                    *def,
                    palette@,
                    index_at(bytes@, nb, p),
                ),
            forall|i: int|
                0 <= i < pixels@.len() ==> !lookup_fails_at(bytes@, *def, nb, palette@, i),
        decreases len - bi,
    {
        let bits = byte_to_bits(bytes[bi]);
        let mut g: usize = 0;
        while g < gpb
            invariant
                len == bytes@.len(),
                bi < len,
                n == w * h,
                w == def.sprite_width_px,
                h == def.sprite_height_px,
                nb == bpp,
                gpb == 8nat / nb,
                bpp == 1 || bpp == 2 || bpp == 4 || bpp == 8,
                g <= gpb,
                bits@ == byte_bits(bytes@[bi as int]),
                is_bits(bits@),
                pixels@.len() == if bi * gpb + g < n {
                    bi * gpb + g
                } else {
                    n as int
                },
                forall|p: int|
                    0 <= p < pixels@.len() ==> pixels@[p] == indexed_color(
                        *def,
                        palette@,
                        index_at(bytes@, nb, p),
                    ),
                forall|i: int|
                    0 <= i < pixels@.len() ==> !lookup_fails_at(bytes@, *def, nb, palette@, i),
            decreases gpb - g,
        {
            let ghost i = bi * gpb + g;
            if pixels.len() < n {
                proof {
                    lemma_group_bits(bytes@, nb, bi as int, g as int);
                }
                let chunk = slice_subrange(bits.as_slice(), g * bpp, g * bpp + bpp);
                assert(is_bits(chunk@));
                let index = bits_to_byte(chunk) as usize;
                assert(index as nat == index_at(bytes@, nb, i));
                let color = if def.has_transparency && index
                    == def.transparent_color_index as usize {
                    transparent()
                } else if index < palette.len() {
                    palette[index]
                } else {
                    proof {
                        lemma_group_count(len as nat, nb);
                        assert(i < len * gpb) by (nonlinear_arith)
                            requires
                                i == bi * gpb + g,
                                g < gpb,
                                bi < len,
                        ;
                        assert(lookup_fails_at(bytes@, *def, nb, palette@, i));
                    }
                    return Err(DecodeError::PaletteIndexOutOfRange);
                };
                pixels.push(color);
            }
            g = g + 1;
        }
        proof {
            assert((bi + 1) * gpb == bi * gpb + gpb) by (nonlinear_arith);
        }
        bi = bi + 1;
    }
    proof {
        lemma_group_count(len as nat, nb);
    }
    assert(len * gpb == group_count(bytes@, nb));
    assert(!indexed_lookup_fails(bytes@, *def, nb, palette@));
    let ghost placed = pixels@.len();
    while pixels.len() < n
        invariant
            n == w * h,
            placed <= pixels@.len() <= n,
            placed == if len * gpb < n {
                len * gpb
            } else {
                n as int
            },
            len * gpb == group_count(bytes@, nb),
            forall|p: int|
                0 <= p < placed ==> pixels@[p] == indexed_color(
                    *def,
                    palette@,
                    index_at(bytes@, nb, p),
                ),
            forall|p: int| placed <= p < pixels@.len() ==> pixels@[p] == transparent_spec(),
        decreases n - pixels@.len(),
    {
        pixels.push(transparent());
    }
    let r = Raster { width: w, height: h, pixels };
    assert(r@.pixels =~= indexed_sprite_spec(bytes@, *def, nb, palette@)->Ok_0.pixels);
    Ok(r)
}

/// Draws a sprite whose pixels are 16-bit little-endian RGB565 samples.
pub fn make_direct_sprite(bytes: &[u8], def: &ImageDef) -> (r: Raster)
    requires
        def.wf(),
    ensures
        r@ == direct_sprite_spec(bytes@, *def),
        r@.wf(),
{
    let w = def.sprite_width_px;
    let h = def.sprite_height_px;
    proof {
        assert(w * h <= 0xff * 0xff) by (nonlinear_arith)
            requires
                w <= 0xff,
                h <= 0xff,
        ;
    }
    let n = w * h;
    let len = bytes.len();
    let mut pixels: Vec<Rgba8> = Vec::new();
    let mut pos: usize = 0;
    while pixels.len() < n && len - pos >= 2
        invariant
            len == bytes@.len(),
            pos == 2 * pixels@.len(),
            pos <= len,
            pixels@.len() <= n,
            forall|p: int|
                0 <= p < pixels@.len() ==> pixels@[p] == direct_color(*def, le16(bytes@, 2 * p)),
        decreases n - pixels@.len(),
    {
        let value = read_u16_le(bytes, pos);
        let color = if def.has_transparency && value == def.transparent_color_index {
            transparent()
        } else {
            parse_rgb565(value)
        };
        pixels.push(color);
        pos = pos + 2;
    }
    let ghost placed = pixels@.len();
    while pixels.len() < n
        invariant
            placed <= pixels@.len() <= n,
            placed == n || placed >= len / 2,
            forall|p: int|
                0 <= p < placed ==> pixels@[p] == direct_color(*def, le16(bytes@, 2 * p)),
            forall|p: int| placed <= p < pixels@.len() ==> pixels@[p] == transparent_spec(),
        decreases n - pixels@.len(),
    {
        pixels.push(transparent());
    }
    let r = Raster { width: w, height: h, pixels };
    assert(r@.pixels =~= direct_sprite_spec(bytes@, *def).pixels);
    r
}

/// Decompresses one sprite's payload and draws it, with `palette` when its
/// pixels are palette indices.
pub fn make_sprite(data: &[u8], def: &ImageDef, palette: &[Rgba8]) -> (r: Result<
    Raster,
    DecodeError,
>)
    requires
        def.wf(),
    ensures
        crate::raster::raster_view(r) == sprite_spec(data@, *def, palette@),
        r is Ok ==> r->Ok_0@.wf(),
{
    let pixel_data = match def.compression {
        CompressionType::Uncompressed => vstd::slice::slice_to_vec(data),
        CompressionType::Bytewise => decompress_bytewise(data),
        CompressionType::Wordwise => decompress_wordwise(data),
    };
    match def.pixel_data_type {
        PixelDataType::Bpp(bpp) => make_indexed_sprite(pixel_data.as_slice(), def, bpp, palette),
        PixelDataType::Direct => Ok(make_direct_sprite(pixel_data.as_slice(), def)),
    }
}

} // verus!

verus! {

/// The `bpp` low bits of `v`, least significant first.
pub open spec fn index_bits(v: nat, bpp: nat) -> Seq<u8> {
    Seq::new(bpp, |j: int| bit_of(v, j as nat))
}

/// The bit stream that holds the indices `idx`, `bpp` bits each, least
/// significant bit first.
pub open spec fn pack_bits(idx: Seq<nat>, bpp: nat) -> Seq<u8> {
    Seq::new(idx.len() * bpp, |k: int| bit_of(idx[k / bpp as int], (k % bpp as int) as nat))
}

/// The bytes of a bit stream, eight bits each, least significant first; the
/// last byte is padded with zero bits.
pub open spec fn bytes_of_bits(bits: Seq<u8>) -> Seq<u8> {
    Seq::new(
        (bits.len() + 7) / 8,
        |k: int|
            bits_value(
                bits.subrange(8 * k, if 8 * k + 8 <= bits.len() {
                    8 * k + 8
                } else {
                    bits.len() as int
                }),
            ) as u8,
    )
}

/// The pixel bytes that hold the palette indices `idx` at `bpp` bits each.
pub open spec fn pack_indices(idx: Seq<nat>, bpp: nat) -> Seq<u8> {
    bytes_of_bits(pack_bits(idx, bpp))
}

/// Every palette index that the indexed rasterizer reads from `data`.
pub open spec fn unpack_indices(data: Seq<u8>, bpp: nat) -> Seq<nat> {
    Seq::new(group_count(data, bpp), |i: int| index_at(data, bpp, i))
}

proof fn lemma_index_bits_value(v: nat, bpp: nat)
    requires
        v < pow2(bpp),
    ensures
        bits_value(index_bits(v, bpp)) == v,
    decreases bpp,
{
    if bpp == 0 {
        lemma2_to64();
    } else {
        lemma_pow2_unfold(bpp);
        lemma_index_bits_value(v / 2, (bpp - 1) as nat);
        assert(index_bits(v, bpp).drop_first() =~= index_bits(v / 2, (bpp - 1) as nat));
    }
}

proof fn lemma_bit_of_value(s: Seq<u8>, i: int)
    requires
        is_bits(s),
        0 <= i < s.len(),
    ensures
        bit_of(bits_value(s), i as nat) == s[i],
    decreases i,
{
    let t = s.drop_first();
    assert(is_bits(t));
    assert((s[0] as nat + 2 * bits_value(t)) / 2 == bits_value(t));
    assert((s[0] as nat + 2 * bits_value(t)) % 2 == s[0] as nat);
    if i > 0 {
        lemma_bit_of_value(t, i - 1);
    }
}

proof fn lemma_unpack_bytes_of_bits(b: Seq<u8>, m: int)
    requires
        is_bits(b),
        0 <= m < b.len(),
    ensures
        m < bits_of(bytes_of_bits(b)).len(),
        bits_of(bytes_of_bits(b))[m] == b[m],
{
    let k = m / 8;
    let r = m % 8;
    vstd::arithmetic::div_mod::lemma_fundamental_div_mod(m, 8);
    let hi = if 8 * k + 8 <= b.len() {
        8 * k + 8
    } else {
        b.len() as int
    };
    let chunk = b.subrange(8 * k, hi);
    assert(is_bits(chunk));
    assert(r < chunk.len());
    assert(chunk[r] == b[m]);
    lemma_bits_value_bound(chunk);
    assert(pow2(chunk.len()) <= 256) by {
        lemma2_to64();
        if chunk.len() < 8 {
            vstd::arithmetic::power2::lemma_pow2_strictly_increases(chunk.len(), 8);
        }
    }
    lemma_bit_of_value(chunk, r);
    assert(k < (b.len() + 7) / 8);
}

/// Packing palette indices below `2^bpp` into pixel bytes and reading them
/// back with the same width gives the indices back, followed only by the
/// padding of the last byte.
pub proof fn lemma_pack_unpack(idx: Seq<nat>, bpp: nat)
    requires
        bpp == 1 || bpp == 2 || bpp == 4 || bpp == 8,
        forall|i: int| 0 <= i < idx.len() ==> idx[i] < pow2(bpp),
    ensures
        idx.len() <= unpack_indices(pack_indices(idx, bpp), bpp).len(),
        unpack_indices(pack_indices(idx, bpp), bpp).take(idx.len() as int) == idx,
{
    let bits = pack_bits(idx, bpp);
    let data = pack_indices(idx, bpp);
    let n = idx.len();
    assert forall|k: int| 0 <= k < bits.len() implies bits[k] <= 1 by {
        lemma_bit_of_is_bit(idx[k / bpp as int], (k % bpp as int) as nat);
    }
    assert(data.len() * 8 >= bits.len());
    assert(bits.len() == n * bpp);
    assert(data.len() * 8 / bpp >= n) by {
        vstd::arithmetic::div_mod::lemma_div_is_ordered((n * bpp) as int, (data.len() * 8) as int, bpp as int);
        vstd::arithmetic::div_mod::lemma_div_by_multiple(n as int, bpp as int);
    }
    let u = unpack_indices(data, bpp);
    assert forall|i: int| 0 <= i < n implies u[i] == idx[i] by {
        assert(i * bpp + bpp <= n * bpp) by (nonlinear_arith)
            requires
                0 <= i < n,
        ;
        let lhs = bits_of(data).subrange(i * bpp, i * bpp + bpp);
        assert forall|j: int| 0 <= j < bpp implies #[trigger] lhs[j] == index_bits(idx[i], bpp)[j] by {
            lemma_unpack_bytes_of_bits(bits, i * bpp + j);
            vstd::arithmetic::div_mod::lemma_fundamental_div_mod_converse(i * bpp + j, bpp as int, i, j);
        }
        assert(lhs =~= index_bits(idx[i], bpp));
        lemma_index_bits_value(idx[i], bpp);
    }
    assert(u.take(n as int) =~= idx);
}

} // verus!

verus! {

/// A pixel whose raw index or sample is the transparent marker, in an image
/// that declares transparency, is fully transparent whatever the palette or
/// the colour decoding would give.
pub proof fn lemma_transparent_precedence(
    data: Seq<u8>,
    def: ImageDef,
    palette: Seq<Rgba8>,
    p: int,
)
    requires
        def.has_transparency,
        0 <= p < def.sprite_width_px * def.sprite_height_px,
    ensures
        ({
            let px = decompressed(def.compression, data);
            match def.pixel_data_type {
                PixelDataType::Bpp(bpp) => p < group_count(px, bpp as nat) && index_at(
                    px,
                    bpp as nat,
                    p,
                ) == def.transparent_color_index ==> sprite_spec(data, def, palette) is Ok
                    ==> sprite_spec(data, def, palette)->Ok_0.pixels[p] == transparent_spec(),
                PixelDataType::Direct => p < px.len() / 2 && le16(px, 2 * p)
                    == def.transparent_color_index ==> sprite_spec(data, def, palette) is Ok
                    && sprite_spec(data, def, palette)->Ok_0.pixels[p] == transparent_spec(),
            }
        }),
{
}

} // verus!

verus! {

/// Number of pixel values that decompressed pixel bytes hold: whole groups of
/// `bpp` bits for palette indices, whole 16-bit samples for direct colour.
pub open spec fn unpacked_count(px: Seq<u8>, def: ImageDef) -> nat {
    match def.pixel_data_type {
        PixelDataType::Bpp(bpp) => group_count(px, bpp as nat),
        PixelDataType::Direct => px.len() / 2,
    }
}

/// The number of pixels of a sprite, and the number of pixel values that its
/// raw payload unpacks to. They differ when the payload is too short (the
/// last pixels stay blank) or too long (the extra values are dropped).
pub fn sprite_pixel_counts(data: &[u8], def: &ImageDef) -> (r: (usize, u128))
    requires
        def.wf(),
    ensures
        r.0 == def.sprite_width_px * def.sprite_height_px,
        r.1 == unpacked_count(decompressed(def.compression, data@), *def),
{
    proof {
        assert(def.sprite_width_px * def.sprite_height_px <= 0xff * 0xff) by (nonlinear_arith)
            requires
                def.sprite_width_px <= 0xff,
                def.sprite_height_px <= 0xff,
        ;
    }
    let expected = def.sprite_width_px * def.sprite_height_px;
    let pixel_data = match def.compression {
        CompressionType::Uncompressed => vstd::slice::slice_to_vec(data),
        CompressionType::Bytewise => decompress_bytewise(data),
        CompressionType::Wordwise => decompress_wordwise(data),
    };
    let len = pixel_data.len() as u128;
    let actual = match def.pixel_data_type {
        PixelDataType::Bpp(bpp) => len * 8 / bpp as u128,
        PixelDataType::Direct => len / 2,
    };
    (expected, actual)
}

/// Packing one palette index per pixel into pixel bytes and drawing them with
/// the same width colours each pixel with its index's palette entry.
pub proof fn lemma_pack_then_draw(idx: Seq<nat>, def: ImageDef, bpp: nat, palette: Seq<Rgba8>)
    requires
        bpp == 1 || bpp == 2 || bpp == 4 || bpp == 8,
        !def.has_transparency,
        idx.len() == def.sprite_width_px * def.sprite_height_px,
        forall|i: int| 0 <= i < idx.len() ==> idx[i] < pow2(bpp) && idx[i] < palette.len(),
    ensures
        indexed_sprite_spec(pack_indices(idx, bpp), def, bpp, palette) is Ok,
        forall|p: int|
            0 <= p < idx.len() ==> indexed_sprite_spec(pack_indices(idx, bpp), def, bpp, palette)->Ok_0.pixels[p]
                == palette[idx[p] as int],
{
    let data = pack_indices(idx, bpp);
    lemma_pack_unpack(idx, bpp);
    let u = unpack_indices(data, bpp);
    assert forall|i: int| 0 <= i < idx.len() implies index_at(data, bpp, i) == idx[i] by {
        assert(u.take(idx.len() as int)[i] == u[i]);
    }
    assert forall|i: int|
        0 <= i < group_count(data, bpp) && i < def.sprite_width_px * def.sprite_height_px
            implies !#[trigger] lookup_fails_at(data, def, bpp, palette, i) by {
        assert(index_at(data, bpp, i) == idx[i]);
    }
    assert(!indexed_lookup_fails(data, def, bpp, palette));
}

} // verus!
