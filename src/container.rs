use vstd::arithmetic::power2::{lemma2_to64, pow2};
use vstd::prelude::*;
use vstd::slice::slice_subrange;

use crate::color::{get_palettes, palettes_spec, Rgba8};
use crate::compose::{bytes_seqs, make_spritesheet, palette_seqs, sheet_spec};
use crate::descriptor::{image_def_of, read_image_def, ImageDef, PixelDataType};
use crate::error::{DecodeError, EntryError};
use crate::le::{le32, read_u32_le};
use crate::payload::{get_pixel_data_per_sprite, payloads_spec, payloads_view};
use crate::raster::{raster_view, Grid, Raster};

verus! {

/// Number of entries in an offset table of `len` bytes: entries are read four
/// bytes at a time until the read position reaches `len`, and the first entry
/// is always read.
pub open spec fn table_entry_count(len: nat) -> nat {
    if len <= 4 {
        1
    } else {
        ((len + 3) / 4) as nat
    }
}

/// The image offsets that the container's table lists. The first entry is
/// also the table's length in bytes.
pub open spec fn offset_table_spec(data: Seq<u8>) -> Result<Seq<u32>, DecodeError> {
    if data.len() < 4 {
        Err(DecodeError::TruncatedInput)
    } else {
        let n = table_entry_count(le32(data, 0));
        if 4 * n > data.len() {
            Err(DecodeError::TruncatedInput)
        } else {
            Ok(Seq::new(n, |k: int| le32(data, 4 * k) as u32))
        }
    }
}

/// Reads the table of image offsets at the start of the container.
pub fn read_offset_table(data: &[u8]) -> (r: Result<Vec<u32>, DecodeError>)
    ensures
        match r {
            Ok(v) => offset_table_spec(data@) == Ok::<Seq<u32>, DecodeError>(v@),
            Err(e) => offset_table_spec(data@) == Err::<Seq<u32>, DecodeError>(e),
        },
{
    let len = data.len();
    if len < 4 {
        return Err(DecodeError::TruncatedInput);
    }
    let first = read_u32_le(data, 0);
    let n: u64 = if first <= 4 {
        1
    } else {
        (first as u64 + 3) / 4
    };
    if 4 * n > len as u64 {
        return Err(DecodeError::TruncatedInput);
    }
    let n = n as usize;
    let mut offsets: Vec<u32> = Vec::new();
    let mut k: usize = 0;
    while k < n
        invariant
            len == data@.len(),
            4 * n <= len,
            k <= n,
            offsets@ =~= Seq::new(k as nat, |i: int| le32(data@, 4 * i) as u32),
        decreases n - k,
    {
        let v = read_u32_le(data, 4 * k);
        offsets.push(v);
        k = k + 1;
    }
    Ok(offsets)
}

/// Number of colours in each palette of an image with `bpp`-bit indices.
pub open spec fn colors_per_palette(bpp: nat) -> nat {
    pow2(bpp)
}

/// The palettes of an image whose header is `def` and whose palette region
/// is `region`; an image of 16-bit colours has that many empty palettes.
pub open spec fn image_palettes(region: Seq<u8>, def: ImageDef) -> Seq<
    Seq<Rgba8>,
> {
    match def.pixel_data_type {
        PixelDataType::Bpp(b) => palettes_spec(
            region,
            colors_per_palette(b as nat),
            def.num_palettes as nat,
        ),
        PixelDataType::Direct => Seq::new(def.num_palettes as nat, |p: int| Seq::<Rgba8>::empty()),
    }
}

/// The header of the image that starts at byte `start` of the container,
/// with the raw payload of each of its sprites.
pub open spec fn entry_layout_spec(data: Seq<u8>, start: nat) -> Result<
    (ImageDef, Seq<Seq<u8>>),
    DecodeError,
> {
    if start > data.len() {
        Err(DecodeError::RangeError)
    } else {
        match image_def_of(data.skip(start as int)) {
            Err(e) => Err(e),
            Ok(def) => {
                let pal = start + def.palette_data_offset;
                let pix = start + def.pixel_data_offset;
                let end = start + def.data_length;
                if pix > end || end > data.len() || (def.pixel_data_type is Bpp && pal > pix) {
                    Err(DecodeError::RangeError)
                } else {
                    match payloads_spec(data.subrange(pix, end), def) {
                        Err(e) => Err(e),
                        Ok(payloads) => Ok((def, payloads)),
                    }
                }
            },
        }
    }
}

/// The spritesheet of the image that starts at byte `start` of the container.
pub open spec fn entry_spec(data: Seq<u8>, start: nat) -> Result<Grid, DecodeError> {
    match entry_layout_spec(data, start) {
        Err(e) => Err(e),
        Ok((def, payloads)) => sheet_spec(
            def,
            payloads,
            image_palettes(
                data.subrange(
                    start + def.palette_data_offset,
                    start + def.pixel_data_offset,
                ),
                def,
            ),
        ),
    }
}

/// Reads the header of the image that starts at byte `offset` of the
/// container and slices out the raw payload of each of its sprites.
pub fn read_entry_payloads(data: &[u8], offset: usize) -> (r: Result<
    (ImageDef, Vec<Vec<u8>>),
    DecodeError,
>)
    ensures
        match r {
            Ok((def, payloads)) => def.wf() && offset + def.pixel_data_offset <= offset
                + def.data_length <= data@.len() && (def.pixel_data_type is Bpp
                ==> def.palette_data_offset <= def.pixel_data_offset) && entry_layout_spec(data@, offset as nat) == Ok::<
                (ImageDef, Seq<Seq<u8>>),
                DecodeError,
            >((def, bytes_seqs(payloads@))),
            Err(e) => entry_layout_spec(data@, offset as nat) == Err::<
                (ImageDef, Seq<Seq<u8>>),
                DecodeError,
            >(e),
        },
{
    let len = data.len();
    if offset > len {
        return Err(DecodeError::RangeError);
    }
    let def = match read_image_def(slice_subrange(data, offset, len)) {
        Ok(d) => d,
        Err(e) => {
            assert(data@.subrange(offset as int, len as int) =~= data@.skip(offset as int));
            return Err(e);
        },
    };
    assert(data@.subrange(offset as int, len as int) =~= data@.skip(offset as int));
    if len - offset < def.data_length || def.data_length < def.pixel_data_offset {
        return Err(DecodeError::RangeError);
    }
    if let PixelDataType::Bpp(_) = def.pixel_data_type {
        if def.pixel_data_offset < def.palette_data_offset {
            return Err(DecodeError::RangeError);
        }
    }
    let pixel_start = offset + def.pixel_data_offset;
    let end_index = offset + def.data_length;
    let payloads = match get_pixel_data_per_sprite(
        slice_subrange(data, pixel_start, end_index),
        &def,
    ) {
        Ok(p) => p,
        Err(e) => {
            return Err(e);
        },
    };
    assert(payloads_view(Ok(payloads)) == Ok::<Seq<Seq<u8>>, DecodeError>(bytes_seqs(payloads@)));
    Ok((def, payloads))
}

/// Decodes the image that starts at byte `offset` of the container into its
/// spritesheet.
pub fn decode_entry(data: &[u8], offset: usize) -> (r: Result<Raster, DecodeError>)
    ensures
        raster_view(r) == entry_spec(data@, offset as nat),
        r is Ok ==> r->Ok_0@.wf(),
{
    let (def, payloads) = match read_entry_payloads(data, offset) {
        Ok(parts) => parts,
        Err(e) => {
            return Err(e);
        },
    };
    let ghost pal = offset + def.palette_data_offset;
    let ghost pix = offset + def.pixel_data_offset;
    let len = data.len();
    assert(pix <= len);
    let pixel_start = offset + def.pixel_data_offset;
    let palettes: Vec<Vec<Rgba8>> = match def.pixel_data_type {
        PixelDataType::Bpp(bpp) => {
            let palette_start = offset + def.palette_data_offset;
            proof {
                lemma2_to64();
            }
            let cpp: usize = if bpp == 1 {
                2
            } else if bpp == 2 {
                4
            } else if bpp == 4 {
                16
            } else {
                256
            };
            get_palettes(slice_subrange(data, palette_start, pixel_start), cpp, def.num_palettes)
        },
        PixelDataType::Direct => {
            let mut v: Vec<Vec<Rgba8>> = Vec::new();
            let mut p: usize = 0;
            while p < def.num_palettes
                invariant
                    p <= def.num_palettes,
                    palette_seqs(v@) =~= Seq::new(p as nat, |i: int| Seq::<Rgba8>::empty()),
                decreases def.num_palettes - p,
            {
                let ghost before = v@;
                v.push(Vec::new());
                assert(palette_seqs(v@) =~= palette_seqs(before).push(Seq::<Rgba8>::empty()));
                p = p + 1;
            }
            v
        },
    };
    assert(palette_seqs(palettes@) == image_palettes(data@.subrange(pal, pix), def));
    make_spritesheet(&def, &payloads, &palettes)
}

/// The outcome of one entry of the container.
pub open spec fn entry_view(r: Result<Raster, EntryError>) -> Result<Grid, EntryError> {
    match r {
        Ok(v) => Ok(v@),
        Err(e) => Err(e),
    }
}

/// Decodes every entry of the container. A table that cannot be read fails
/// the whole container; a malformed entry is reported with its position and
/// offset while the others are still decoded.
pub fn decode_container(data: &[u8]) -> (r: Result<Vec<Result<Raster, EntryError>>, DecodeError>)
    ensures
        match r {
            Err(e) => offset_table_spec(data@) == Err::<Seq<u32>, DecodeError>(e),
            Ok(v) => offset_table_spec(data@) is Ok && v@.len()
                == offset_table_spec(data@)->Ok_0.len() && forall|k: int|
                0 <= k < v@.len() ==> entry_view(#[trigger] v@[k]) == match entry_spec(
                    data@,
                    offset_table_spec(data@)->Ok_0[k] as nat,
                ) {
                    Ok(g) => Ok::<Grid, EntryError>(g),
                    Err(e) => Err(
                        EntryError {
                            entry: k as usize,
                            offset: offset_table_spec(data@)->Ok_0[k] as usize,
                            error: e,
                        },
                    ),
                },
        },
{
    let offsets = read_offset_table(data)?;
    let mut results: Vec<Result<Raster, EntryError>> = Vec::new();
    let mut k: usize = 0;
    while k < offsets.len()
        invariant
            offset_table_spec(data@) == Ok::<Seq<u32>, DecodeError>(offsets@),
            k <= offsets@.len(),
            results@.len() == k,
            forall|i: int|
                0 <= i < k ==> entry_view(#[trigger] results@[i]) == match entry_spec(
                    data@,
                    offsets@[i] as nat,
                ) {
                    Ok(g) => Ok::<Grid, EntryError>(g),
                    Err(e) => Err(
                        EntryError { entry: i as usize, offset: offsets@[i] as usize, error: e },
                    ),
                },
        decreases offsets@.len() - k,
    {
        let offset = offsets[k] as usize;
        let outcome = match decode_entry(data, offset) {
            Ok(sheet) => Ok(sheet),
            Err(error) => Err(EntryError { entry: k, offset, error }),
        };
        results.push(outcome);
        k = k + 1;
    }
    Ok(results)
}

} // verus!
