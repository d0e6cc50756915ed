use vstd::prelude::*;

verus! {

/// The colour curves an author's name can be mapped onto.
#[derive(Clone, Copy, Debug, PartialEq, Eq, Structural)]
pub enum Palette {
    Pastel,
    Vibrant,
    Warm,
    Cool,
}

/// An RGB triple.
#[derive(Clone, Copy, Debug, PartialEq, Eq, Structural)]
pub struct Rgb(pub u8, pub u8, pub u8);

/// Sum of the bytes of a name, as an unbounded integer.
pub open spec fn byte_sum(b: Seq<u8>) -> nat
    decreases b.len(),
{
    if b.len() == 0 {
        0
    } else {
        byte_sum(b.drop_last()) + b.last() as nat
    }
}

/// The accumulator: the byte sum in a 32-bit unsigned integer that wraps.
pub open spec fn name_hash(b: Seq<u8>) -> nat {
    byte_sum(b) % 0x1_0000_0000
}

/// Hue in tenths of a degree, saturation and lightness in percent, per palette.
pub open spec fn palette_hsl(hash: int, palette: Palette) -> (int, int, int) {
    match palette {
        Palette::Pastel => (((hash % 360) + 1) * 10, 50, 75),
        Palette::Vibrant => (((hash % 360) + 1) * 10, 100, 60),
        Palette::Warm => (((hash % 100) + 1) * 12, 80, 70),
        Palette::Cool => (((hash % 100) + 1) * 12 + 1800, 60, 70),
    }
}

pub open spec fn abs_diff(a: int, b: int) -> int {
    if a >= b { a - b } else { b - a }
}

/// Chroma, over a denominator of 10000.
pub open spec fn chroma(s: int, l: int) -> int {
    (100 - abs_diff(2 * l, 100)) * s
}

/// Standard HSL to RGB conversion, computed exactly over the rationals and
/// truncated to a byte per channel. `h` is in tenths of a degree, `s` and
/// `l` in percent. All intermediate quantities share the denominator 6_000_000.
pub open spec fn hsl_to_rgb_spec(h: int, s: int, l: int) -> (u8, u8, u8) {
    let c = chroma(s, l);
    let big_c = c * 600;
    let x = c * (600 - abs_diff(h % 1200, 600));
    let m = l * 60000 - c * 300;
    let sector = if h / 600 > 5 { 5 } else { h / 600 };
    let (r, g, b) = if sector == 0 {
        (big_c, x, 0int)
    } else if sector == 1 {
        (x, big_c, 0int)
    } else if sector == 2 {
        (0int, big_c, x)
    } else if sector == 3 {
        (0int, x, big_c)
    } else if sector == 4 {
        (x, 0int, big_c)
    } else {
        (big_c, 0int, x)
    };
    (
        ((r + m) * 255 / 6_000_000) as u8,
        ((g + m) * 255 / 6_000_000) as u8,
        ((b + m) * 255 / 6_000_000) as u8,
    )
}

/// The colour given to an author whose name has the bytes `name`.
pub open spec fn author_color(name: Seq<u8>, palette: Palette) -> Rgb {
    let (h, s, l) = palette_hsl(name_hash(name) as int, palette);
    let (r, g, b) = hsl_to_rgb_spec(h, s, l);
    Rgb(r, g, b)
}

/// The colour of an author depends on the name and palette alone: equal
/// inputs give equal colours, and every input has one.
pub proof fn lemma_color_deterministic(a: Seq<u8>, b: Seq<u8>, palette: Palette)
    requires
        a == b,
    ensures
        author_color(a, palette) == author_color(b, palette),
{
}

/// Sums the bytes of `name` into a wrapping 32-bit accumulator.
pub fn hash_bytes(name: &[u8]) -> (r: u32)
    ensures
        r as nat == name_hash(name@),
{
    let mut acc: u32 = 0;
    let mut i: usize = 0;
    while i < name.len()
        invariant
            i <= name@.len(),
            acc as nat == byte_sum(name@.subrange(0, i as int)) % 0x1_0000_0000,
        decreases name@.len() - i,
    {
        let ghost prev = name@.subrange(0, i as int);
        let ghost next = name@.subrange(0, i as int + 1);
        assert(next.drop_last() =~= prev);
        let b: u8 = name[i];
        acc = acc.wrapping_add(b as u32);
        proof {
            let s = byte_sum(prev);
            vstd::arithmetic::div_mod::lemma_add_mod_noop(s as int, b as int, 0x1_0000_0000);
            vstd::arithmetic::div_mod::lemma_mod_twice(b as int, 0x1_0000_0000);
        }
        i = i + 1;
    }
    assert(name@.subrange(0, name@.len() as int) =~= name@);
    acc
}

/// Converts a hue (tenths of a degree), saturation and lightness (percent)
/// to RGB.
pub fn hsl_to_rgb(h: u32, s: u32, l: u32) -> (r: Rgb)
    requires
        h <= 3600,
        s <= 100,
        l <= 100,
    ensures
        r == (Rgb(
            hsl_to_rgb_spec(h as int, s as int, l as int).0,
            hsl_to_rgb_spec(h as int, s as int, l as int).1,
            hsl_to_rgb_spec(h as int, s as int, l as int).2,
        )),
{
    let two_l: u64 = 2 * l as u64;
    let dist: u64 = if two_l >= 100 { two_l - 100 } else { 100 - two_l };
    let a: u64 = 100 - dist;
    assert(a * s <= 10000) by (nonlinear_arith)
        requires a <= 100, s <= 100;
    let c: u64 = a * s as u64;
    assert(c * 300 <= l * 60000) by (nonlinear_arith)
        requires
            c == a * s,
            a == 100 - dist,
            s <= 100,
            two_l == 2 * l,
            dist == if two_l >= 100 { two_l - 100 } else { 100 - two_l },
            l <= 100,
    ;
    assert(c * 300 + l * 60000 <= 6_000_000) by (nonlinear_arith)
        requires
            c == a * s,
            a == 100 - dist,
            s <= 100,
            two_l == 2 * l,
            dist == if two_l >= 100 { two_l - 100 } else { 100 - two_l },
            l <= 100,
    ;
    let big_c: u64 = c * 600;
    let hm: u64 = (h % 1200) as u64;
    let hd: u64 = if hm >= 600 { hm - 600 } else { 600 - hm };
    let k: u64 = 600 - hd;
    assert(c * k <= c * 600) by (nonlinear_arith)
        requires k <= 600;
    let x: u64 = c * k;
    let m: u64 = l as u64 * 60000 - c * 300;
    let sector: u32 = if h / 600 > 5 { 5 } else { h / 600 };
    let (rr, gg, bb) = if sector == 0 {
        (big_c, x, 0u64)
    } else if sector == 1 {
        (x, big_c, 0u64)
    } else if sector == 2 {
        (0u64, big_c, x)
    } else if sector == 3 {
        (0u64, x, big_c)
    } else if sector == 4 {
        (x, 0u64, big_c)
    } else {
        (big_c, 0u64, x)
    };
    assert(big_c + m <= 6_000_000);
    Rgb(
        ((rr + m) * 255 / 6_000_000) as u8,
        ((gg + m) * 255 / 6_000_000) as u8,
        ((bb + m) * 255 / 6_000_000) as u8,
    )
}

/// The display colour of an author, from the bytes of the name.
pub fn color_for(name: &[u8], palette: Palette) -> (r: Rgb)
    ensures
        r == author_color(name@, palette),
{
    let hash = hash_bytes(name);
    let (h, s, l): (u32, u32, u32) = match palette {
        Palette::Pastel => ((hash % 360 + 1) * 10, 50, 75),
        Palette::Vibrant => ((hash % 360 + 1) * 10, 100, 60),
        Palette::Warm => ((hash % 100 + 1) * 12, 80, 70),
        Palette::Cool => ((hash % 100 + 1) * 12 + 1800, 60, 70),
    };
    hsl_to_rgb(h, s, l)
}

} // verus!
