//! RGBA colours and their packed 32-bit forms.
use vstd::prelude::*;

verus! {

/// A colour with red, green, blue and alpha channels.
#[derive(Debug, Clone, Copy, PartialEq, Eq, Hash, Structural)]
pub struct Color {
    r: u8,
    g: u8,
    b: u8,
    a: u8,
}

/// A colour's channel: 0 red, 1 green, 2 blue, 3 alpha.
pub open spec fn channel(c: Color, k: nat) -> u8 {
    if k == 0 {
        c.spec_r()
    } else if k == 1 {
        c.spec_g()
    } else if k == 2 {
        c.spec_b()
    } else {
        c.spec_a()
    }
}

/// The sum of one channel over colours.
pub open spec fn channel_sum(colors: Seq<Color>, k: nat) -> nat
    decreases colors.len(),
{
    if colors.len() == 0 {
        0
    } else {
        channel_sum(colors.drop_last(), k) + channel(colors.last(), k) as nat
    }
}

impl Color {
    pub closed spec fn spec_r(&self) -> u8 {
        self.r
    }

    pub closed spec fn spec_g(&self) -> u8 {
        self.g
    }

    pub closed spec fn spec_b(&self) -> u8 {
        self.b
    }

    pub closed spec fn spec_a(&self) -> u8 {
        self.a
    }

    /// A colour is its four channels.
    pub proof fn lemma_channels_determine(c1: Color, c2: Color)
        requires
            c1.spec_r() == c2.spec_r(),
            c1.spec_g() == c2.spec_g(),
            c1.spec_b() == c2.spec_b(),
            c1.spec_a() == c2.spec_a(),
        ensures
            c1 == c2,
    {
    }

    pub fn new(r: u8, g: u8, b: u8, a: u8) -> (c: Self)
        ensures
            c.spec_r() == r,
            c.spec_g() == g,
            c.spec_b() == b,
            c.spec_a() == a,
    {
        Color { r, g, b, a }
    }

    /// A fully opaque colour.
    pub fn new_opaque(r: u8, g: u8, b: u8) -> (c: Self)
        ensures
            c.spec_r() == r,
            c.spec_g() == g,
            c.spec_b() == b,
            c.spec_a() == 0xff,
    {
        Color { r, g, b, a: 0xff }
    }

    pub fn a(&self) -> (v: u8)
        ensures
            v == self.spec_a(),
    {
        self.a
    }

    pub fn r(&self) -> (v: u8)
        ensures
            v == self.spec_r(),
    {
        self.r
    }

    pub fn g(&self) -> (v: u8)
        ensures
            v == self.spec_g(),
    {
        self.g
    }

    pub fn b(&self) -> (v: u8)
        ensures
            v == self.spec_b(),
    {
        self.b
    }

    /// The average of the colours, channel by channel, rounded down; none for no colours.
    pub fn mix(colors: &[Color]) -> (r: Option<Color>)
        requires
            colors@.len() * 255 <= usize::MAX,
        ensures
            colors@.len() == 0 ==> r is None,
            colors@.len() > 0 ==> (r matches Some(c) && c.spec_r() == channel_sum(colors@, 0)
                / colors@.len() && c.spec_g() == channel_sum(colors@, 1) / colors@.len()
                && c.spec_b() == channel_sum(colors@, 2) / colors@.len() && c.spec_a()
                == channel_sum(colors@, 3) / colors@.len()),
    {
        let count = colors.len();
        if count == 0 {
            return None;
        }
        let mut total_r: usize = 0;
        let mut total_g: usize = 0;
        let mut total_b: usize = 0;
        let mut total_a: usize = 0;
        let mut i: usize = 0;
        proof {
            assert(colors@.take(0) =~= Seq::<Color>::empty());
        }
        while i < count
            invariant
                i <= count,
                count == colors@.len(),
                count * 255 <= usize::MAX,
                total_r == channel_sum(colors@.take(i as int), 0),
                total_g == channel_sum(colors@.take(i as int), 1),
                total_b == channel_sum(colors@.take(i as int), 2),
                total_a == channel_sum(colors@.take(i as int), 3),
                total_r <= i * 255,
                total_g <= i * 255,
                total_b <= i * 255,
                total_a <= i * 255,
            decreases count - i,
        {
            let c = colors[i];
            proof {
                assert(colors@.take(i + 1).drop_last() =~= colors@.take(i as int));
                assert(colors@.take(i + 1).last() == c);
                assert((i + 1) * 255 <= count * 255) by (nonlinear_arith)
                    requires
                        i + 1 <= count,
                ;
            }
            total_r = total_r + c.r as usize;
            total_g = total_g + c.g as usize;
            total_b = total_b + c.b as usize;
            total_a = total_a + c.a as usize;
            i = i + 1;
        }
        proof {
            assert(colors@.take(count as int) =~= colors@);
            assert(total_r / count <= 255) by (nonlinear_arith)
                requires
                    total_r <= count * 255,
                    count > 0,
            ;
            assert(total_g / count <= 255) by (nonlinear_arith)
                requires
                    total_g <= count * 255,
                    count > 0,
            ;
            assert(total_b / count <= 255) by (nonlinear_arith)
                requires
                    total_b <= count * 255,
                    count > 0,
            ;
            assert(total_a / count <= 255) by (nonlinear_arith)
                requires
                    total_a <= count * 255,
                    count > 0,
            ;
        }
        Some(
            Color::new(
                (total_r / count) as u8,
                (total_g / count) as u8,
                (total_b / count) as u8,
                (total_a / count) as u8,
            ),
        )
    }

    /// An opaque colour from a 0xRRGGBB code (higher bits are ignored).
    pub fn from_rgb(code: u32) -> (c: Color)
        ensures
            c.spec_r() == (code >> 16u32) & 0xff,
            c.spec_g() == (code >> 8u32) & 0xff,
            c.spec_b() == code & 0xff,
            c.spec_a() == 0xff,
    {
        proof {
            lemma_byte_fields(code);
        }
        Color::new_opaque(((code >> 16) & 0xff) as u8, ((code >> 8) & 0xff) as u8, (code & 0xff) as u8)
    }

    /// A colour from a 0xAARRGGBB code.
    pub fn from_argb(code: u32) -> (c: Color)
        ensures
            c.spec_r() == (code >> 16u32) & 0xff,
            c.spec_g() == (code >> 8u32) & 0xff,
            c.spec_b() == code & 0xff,
            c.spec_a() == (code >> 24u32) & 0xff,
    {
        proof {
            lemma_byte_fields(code);
        }
        Color::new(
            ((code >> 16) & 0xff) as u8,
            ((code >> 8) & 0xff) as u8,
            (code & 0xff) as u8,
            ((code >> 24) & 0xff) as u8,
        )
    }

    /// The packed 0xAARRGGBB code.
    pub open spec fn spec_argb(&self) -> u32 {
        ((self.spec_a() as u32) << 24u32) | ((self.spec_r() as u32) << 16u32) | ((self.spec_g() as u32)
            << 8u32) | (self.spec_b() as u32)
    }

    /// The packed 0xRRGGBBAA code.
    pub open spec fn spec_rgba(&self) -> u32 {
        ((self.spec_r() as u32) << 24u32) | ((self.spec_g() as u32) << 16u32) | ((self.spec_b() as u32)
            << 8u32) | (self.spec_a() as u32)
    }

    pub fn to_argb(&self) -> (v: u32)
        ensures
            v == self.spec_argb(),
    {
        ((self.a as u32) << 24) | ((self.r as u32) << 16) | ((self.g as u32) << 8) | (self.b as u32)
    }

    /// A colour from a 0xRRGGBBAA code.
    pub fn from_rgba(code: u32) -> (c: Color)
        ensures
            c.spec_r() == (code >> 24u32) & 0xff,
            c.spec_g() == (code >> 16u32) & 0xff,
            c.spec_b() == (code >> 8u32) & 0xff,
            c.spec_a() == code & 0xff,
    {
        proof {
            lemma_byte_fields(code);
        }
        Color::new(
            ((code >> 24) & 0xff) as u8,
            ((code >> 16) & 0xff) as u8,
            ((code >> 8) & 0xff) as u8,
            (code & 0xff) as u8,
        )
    }

    pub fn to_rgba(&self) -> (v: u32)
        ensures
            v == self.spec_rgba(),
    {
        ((self.r as u32) << 24) | ((self.g as u32) << 16) | ((self.b as u32) << 8) | (self.a as u32)
    }
}

proof fn lemma_byte_fields(code: u32)
    ensures
        (code >> 24u32) & 0xff <= 0xff,
        (code >> 16u32) & 0xff <= 0xff,
        (code >> 8u32) & 0xff <= 0xff,
        code & 0xff <= 0xff,
{
    assert((code >> 24u32) & 0xff <= 0xff) by (bit_vector);
    assert((code >> 16u32) & 0xff <= 0xff) by (bit_vector);
    assert((code >> 8u32) & 0xff <= 0xff) by (bit_vector);
    assert(code & 0xff <= 0xff) by (bit_vector);
}

proof fn lemma_pack_unpack(a: u8, r: u8, g: u8, b: u8)
    ensures
        ((((a as u32) << 24u32) | ((r as u32) << 16u32) | ((g as u32) << 8u32) | (b as u32))
            >> 24u32) & 0xff == a,
        ((((a as u32) << 24u32) | ((r as u32) << 16u32) | ((g as u32) << 8u32) | (b as u32))
            >> 16u32) & 0xff == r,
        ((((a as u32) << 24u32) | ((r as u32) << 16u32) | ((g as u32) << 8u32) | (b as u32))
            >> 8u32) & 0xff == g,
        (((a as u32) << 24u32) | ((r as u32) << 16u32) | ((g as u32) << 8u32) | (b as u32)) & 0xff
            == b,
{
    assert(((((a as u32) << 24u32) | ((r as u32) << 16u32) | ((g as u32) << 8u32) | (b as u32))
        >> 24u32) & 0xff == a) by (bit_vector);
    assert(((((a as u32) << 24u32) | ((r as u32) << 16u32) | ((g as u32) << 8u32) | (b as u32))
        >> 16u32) & 0xff == r) by (bit_vector);
    assert(((((a as u32) << 24u32) | ((r as u32) << 16u32) | ((g as u32) << 8u32) | (b as u32))
        >> 8u32) & 0xff == g) by (bit_vector);
    assert((((a as u32) << 24u32) | ((r as u32) << 16u32) | ((g as u32) << 8u32) | (b as u32))
        & 0xff == b) by (bit_vector);
}

proof fn lemma_unpack_pack(code: u32)
    ensures
        ((((code >> 24u32) & 0xff) as u8 as u32) << 24u32) | ((((code >> 16u32) & 0xff) as u8 as u32)
            << 16u32) | ((((code >> 8u32) & 0xff) as u8 as u32) << 8u32) | ((code & 0xff) as u8
            as u32) == code,
{
    assert(((((code >> 24u32) & 0xff) as u8 as u32) << 24u32) | ((((code >> 16u32) & 0xff) as u8
        as u32) << 16u32) | ((((code >> 8u32) & 0xff) as u8 as u32) << 8u32) | ((code & 0xff) as u8
        as u32) == code) by (bit_vector);
}

/// Unpacking a colour's ARGB code gives the colour back.
pub proof fn lemma_argb_roundtrip(c: Color)
    ensures
        c.spec_argb() >> 24u32 & 0xff == c.spec_a(),
        c.spec_argb() >> 16u32 & 0xff == c.spec_r(),
        c.spec_argb() >> 8u32 & 0xff == c.spec_g(),
        c.spec_argb() & 0xff == c.spec_b(),
{
    lemma_pack_unpack(c.spec_a(), c.spec_r(), c.spec_g(), c.spec_b());
}

/// Unpacking a colour's RGBA code gives the colour back.
pub proof fn lemma_rgba_roundtrip(c: Color)
    ensures
        c.spec_rgba() >> 24u32 & 0xff == c.spec_r(),
        c.spec_rgba() >> 16u32 & 0xff == c.spec_g(),
        c.spec_rgba() >> 8u32 & 0xff == c.spec_b(),
        c.spec_rgba() & 0xff == c.spec_a(),
{
    lemma_pack_unpack(c.spec_r(), c.spec_g(), c.spec_b(), c.spec_a());
}

/// Packing the colour read from an ARGB code gives the code back.
pub proof fn lemma_argb_code_roundtrip(code: u32, c: Color)
    requires
        c.spec_r() == (code >> 16u32) & 0xff,
        c.spec_g() == (code >> 8u32) & 0xff,
        c.spec_b() == code & 0xff,
        c.spec_a() == (code >> 24u32) & 0xff,
    ensures
        c.spec_argb() == code,
{
    lemma_unpack_pack(code);
}

/// Packing the colour read from an RGBA code gives the code back.
pub proof fn lemma_rgba_code_roundtrip(code: u32, c: Color)
    requires
        c.spec_r() == (code >> 24u32) & 0xff,
        c.spec_g() == (code >> 16u32) & 0xff,
        c.spec_b() == (code >> 8u32) & 0xff,
        c.spec_a() == code & 0xff,
    ensures
        c.spec_rgba() == code,
{
    lemma_unpack_pack(code);
}

} // verus!
