use vstd::prelude::*;

verus! {

/// An 8-bit-per-channel colour with alpha.
#[derive(Clone, Copy, Debug, PartialEq, Eq, Structural)]
pub struct Rgba8 {
    pub r: u8,
    pub g: u8,
    pub b: u8,
    pub a: u8,
}

/// The fully transparent black pixel, which is also the colour of a blank grid.
pub open spec fn transparent_spec() -> Rgba8 {
    Rgba8 { r: 0, g: 0, b: 0, a: 0 }
}

/// Red channel of an RGB565 sample rescaled to eight bits.
pub open spec fn red_565(v: u16) -> nat {
    (v as nat / 2048) * 255 / 31
}

/// Green channel of an RGB565 sample rescaled to eight bits.
pub open spec fn green_565(v: u16) -> nat {
    ((v as nat / 32) % 64) * 255 / 63
}

/// Blue channel of an RGB565 sample rescaled to eight bits.
pub open spec fn blue_565(v: u16) -> nat {
    (v as nat % 32) * 255 / 31
}

/// The opaque colour that an RGB565 sample stands for.
pub open spec fn rgb565_spec(v: u16) -> Rgba8 {
    Rgba8 { r: red_565(v) as u8, g: green_565(v) as u8, b: blue_565(v) as u8, a: 255 }
}

pub fn transparent() -> (r: Rgba8)
    ensures
        r == transparent_spec(),
{
    Rgba8 { r: 0, g: 0, b: 0, a: 0 }
}

/// Decodes a 5/6/5-bit colour sample into an opaque 8-bit colour.
pub fn parse_rgb565(value: u16) -> (r: Rgba8)
    ensures
        r == rgb565_spec(value),
        r.r as nat == red_565(value),
        r.g as nat == green_565(value),
        r.b as nat == blue_565(value),
{
    assert(value >> 11u16 == value / 2048) by (bit_vector);
    assert((value >> 5u16) & 0x3fu16 == (value / 32) % 64) by (bit_vector);
    assert(value & 0x1fu16 == value % 32) by (bit_vector);
    let r5: u32 = (value >> 11u16) as u32;
    let g6: u32 = ((value >> 5u16) & 0x3fu16) as u32;
    let b5: u32 = (value & 0x1fu16) as u32;
    let r: u32 = r5 * 255 / 31;
    let g: u32 = g6 * 255 / 63;
    let b: u32 = b5 * 255 / 31;
    proof {
        lemma_rgb565_bounds(value);
    }
    Rgba8 { r: r as u8, g: g as u8, b: b as u8, a: 255 }
}

/// Every channel of a decoded RGB565 sample stays within eight bits, black
/// decodes to opaque black and the all-ones sample to opaque white.
pub proof fn lemma_rgb565_bounds(v: u16)
    ensures
        red_565(v) <= 255,
        green_565(v) <= 255,
        blue_565(v) <= 255,
        rgb565_spec(0) == (Rgba8 { r: 0, g: 0, b: 0, a: 255 }),
        rgb565_spec(0xffff) == (Rgba8 { r: 255, g: 255, b: 255, a: 255 }),
{
    let r5 = v as nat / 2048;
    let g6 = (v as nat / 32) % 64;
    let b5 = v as nat % 32;
    assert(r5 <= 31);
    assert(r5 * 255 / 31 <= 255) by (nonlinear_arith) requires r5 <= 31;
    assert(g6 * 255 / 63 <= 255) by (nonlinear_arith) requires g6 < 64;
    assert(b5 * 255 / 31 <= 255) by (nonlinear_arith) requires b5 < 32;
    assert(0nat / 2048 == 0 && (0nat / 32) % 64 == 0 && 0nat % 32 == 0);
    assert(0xffffnat / 2048 == 31 && (0xffffnat / 32) % 64 == 63 && 0xffffnat % 32 == 31);
    assert(31nat * 255 / 31 == 255);
    assert(63nat * 255 / 63 == 255);
}

} // verus!

verus! {

/// Number of colours that palette `p` receives when `total` colours are
/// dealt out `cpp` at a time.
pub open spec fn palette_len(total: nat, cpp: nat, p: nat) -> nat {
    if total <= p * cpp {
        0
    } else if total - p * cpp >= cpp {
        cpp
    } else {
        (total - p * cpp) as nat
    }
}

/// The palettes held in a region of 16-bit little-endian RGB565 samples:
/// colour `i` of the region goes to palette `i / cpp`, and colours beyond the
/// last palette are dropped.
pub open spec fn palettes_spec(b: Seq<u8>, cpp: nat, np: nat) -> Seq<Seq<Rgba8>> {
    Seq::new(
        np,
        |p: int|
            Seq::new(
                palette_len(b.len() / 2, cpp, p as nat),
                |c: int| rgb565_spec(crate::le::le16(b, 2 * (p * cpp + c)) as u16),
            ),
    )
}

/// Decodes the palette region into `num_palettes` palettes of up to
/// `colors_per_palette` colours each.
pub fn get_palettes(bytes: &[u8], colors_per_palette: usize, num_palettes: usize) -> (r: Vec<
    Vec<Rgba8>,
>)
    requires
        0 < colors_per_palette <= 256,
        num_palettes <= 255,
    ensures
        r@.map_values(|v: Vec<Rgba8>| v@) == palettes_spec(
            bytes@,
            colors_per_palette as nat,
            num_palettes as nat,
        ),
{
    let total = bytes.len() / 2;
    let cpp = colors_per_palette;
    let ghost want = palettes_spec(bytes@, cpp as nat, num_palettes as nat);
    let mut palettes: Vec<Vec<Rgba8>> = Vec::new();
    let mut p: usize = 0;
    while p < num_palettes
        invariant
            0 < cpp <= 256,
            num_palettes <= 255,
            total == bytes@.len() / 2,
            p <= num_palettes,
            want == palettes_spec(bytes@, cpp as nat, num_palettes as nat),
            palettes@.map_values(|v: Vec<Rgba8>| v@) =~= want.take(p as int),
        decreases num_palettes - p,
    {
        assert(p * cpp <= 255 * 256) by (nonlinear_arith)
            requires
                p < 255,
                cpp <= 256,
        ;
        let start = p * cpp;
        let ghost row = want[p as int];
        let mut palette: Vec<Rgba8> = Vec::new();
        let mut c: usize = 0;
        while c < cpp && start + c < total
            invariant
                0 < cpp <= 256,
                start == p * cpp,
                start <= 255 * 256,
                total == bytes@.len() / 2,
                c <= cpp,
                c <= total - start || c == 0,
                row == want[p as int],
                p < num_palettes,
                want == palettes_spec(bytes@, cpp as nat, num_palettes as nat),
                palette@ =~= row.take(c as int),
            decreases cpp - c,
        {
            let value = crate::le::read_u16_le(bytes, 2 * (start + c));
            palette.push(parse_rgb565(value));
            c = c + 1;
        }
        assert(row.len() == c);
        assert(palette@ =~= row);
        let ghost before = palettes@;
        palettes.push(palette);
        assert(palettes@.map_values(|v: Vec<Rgba8>| v@) =~= before.map_values(
            |v: Vec<Rgba8>| v@,
        ).push(palette@));
        p = p + 1;
    }
    assert(want.take(num_palettes as int) =~= want);
    palettes
}

} // verus!
