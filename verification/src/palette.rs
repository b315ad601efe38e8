//! The six-colour Spectra 6 palette and 4bpp packing.
use vstd::prelude::*;

verus! {

/// Hardware colour of an E Ink Spectra 6 panel.
///
/// Spectra 6 is a six-colour process and the controller has no entry for
/// code `0x04`; each variant's controller code is given by [`Color::code`].
#[derive(Clone, Copy, Debug, PartialEq, Eq, Structural)]
pub enum Color {
    Black,
    White,
    Yellow,
    Red,
    Blue,
    Green,
}

/// Whether `code` is a controller code of some Spectra 6 colour.
pub open spec fn is_valid_code(code: u8) -> bool {
    code == 0 || code == 1 || code == 2 || code == 3 || code == 5 || code == 6
}

impl Color {
    /// Controller code of this colour (the panel has no code 4).
    pub open spec fn spec_code(self) -> u8 {
        match self {
            Color::Black => 0,
            Color::White => 1,
            Color::Yellow => 2,
            Color::Red => 3,
            Color::Blue => 5,
            Color::Green => 6,
        }
    }

    /// Preview colour of this palette entry as 8-bit RGB.
    pub open spec fn spec_rgb_u8(self) -> [u8; 3] {
        match self {
            Color::Black => [0, 0, 0],
            Color::White => [255, 255, 255],
            Color::Yellow => [255, 230, 0],
            Color::Red => [200, 0, 0],
            Color::Blue => [0, 0, 255],
            Color::Green => [0, 128, 0],
        }
    }

    /// The colour a controller code stands for, if any.
    pub open spec fn spec_from_code(code: u8) -> Option<Color> {
        if code == 0 {
            Some(Color::Black)
        } else if code == 1 {
            Some(Color::White)
        } else if code == 2 {
            Some(Color::Yellow)
        } else if code == 3 {
            Some(Color::Red)
        } else if code == 5 {
            Some(Color::Blue)
        } else if code == 6 {
            Some(Color::Green)
        } else {
            None
        }
    }

    /// Every palette colour, in controller-code order.
    pub open spec fn spec_all() -> Seq<Color> {
        seq![Color::Black, Color::White, Color::Yellow, Color::Red, Color::Blue, Color::Green]
    }

    /// Every palette colour, in controller-code order.
    pub fn all() -> (r: [Color; 6])
        ensures
            r@ == Self::spec_all(),
    {
        let r = [Color::Black, Color::White, Color::Yellow, Color::Red, Color::Blue, Color::Green];
        assert(r@ =~= Self::spec_all());
        r
    }

    /// Controller code of this colour.
    pub fn code(self) -> (c: u8)
        ensures
            c == self.spec_code(),
            is_valid_code(c),
    {
        match self {
            Color::Black => 0,
            Color::White => 1,
            Color::Yellow => 2,
            Color::Red => 3,
            Color::Blue => 5,
            Color::Green => 6,
        }
    }

    /// The colour a controller code stands for; `None` for code 4 and codes above 6.
    pub fn from_code(code: u8) -> (c: Option<Color>)
        ensures
            c == Self::spec_from_code(code),
            c is Some <==> is_valid_code(code),
            c matches Some(col) ==> col.spec_code() == code,
    {
        match code {
            0 => Some(Color::Black),
            1 => Some(Color::White),
            2 => Some(Color::Yellow),
            3 => Some(Color::Red),
            5 => Some(Color::Blue),
            6 => Some(Color::Green),
            _ => None,
        }
    }

    /// Preview colour of this palette entry as 8-bit RGB.
    pub fn rgb_u8(self) -> (rgb: [u8; 3])
        ensures
            rgb == self.spec_rgb_u8(),
    {
        match self {
            Color::Black => [0, 0, 0],
            Color::White => [255, 255, 255],
            Color::Yellow => [255, 230, 0],
            Color::Red => [200, 0, 0],
            Color::Blue => [0, 0, 255],
            Color::Green => [0, 128, 0],
        }
    }
}

/// A packed byte: `hi` in the high nibble, `lo` in the low nibble, each masked to 4 bits.
pub open spec fn packed_byte(hi: u8, lo: u8) -> u8 {
    (((hi & 0x0f) << 4u8) | (lo & 0x0f)) as u8
}

/// The 4bpp packing of indexed pixels: pixel `2i` in the high nibble of byte
/// `i`, pixel `2i + 1` (or 0 past the end) in its low nibble.
pub open spec fn packed_4bpp(indexed: Seq<u8>) -> Seq<u8> {
    Seq::new(
        ((indexed.len() + 1) / 2) as nat,
        |i: int|
            packed_byte(
                indexed[2 * i],
                if 2 * i + 1 < indexed.len() {
                    indexed[2 * i + 1]
                } else {
                    0
                },
            ),
    )
}

/// Pack indexed pixels to 4bpp: high nibble = left pixel, low nibble = right pixel.
pub fn pack_4bpp(indexed: &[u8]) -> (out: Vec<u8>)
    ensures
        out@ == packed_4bpp(indexed@),
{
    let n = indexed.len();
    let m = n / 2 + n % 2;
    let mut out: Vec<u8> = Vec::new();
    let mut k: usize = 0;
    while k < m
        invariant
            n == indexed@.len(),
            m == (n + 1) / 2,
            k <= m,
            out@.len() == k,
            forall|j: int| 0 <= j < out@.len() ==> out@[j] == packed_4bpp(indexed@)[j],
        decreases m - k,
    {
        let i = 2 * k;
        let left = indexed[i];
        let right = if i + 1 < n {
            indexed[i + 1]
        } else {
            0
        };
        let hi = left & 0x0f;
        let lo = right & 0x0f;
        let byte = (hi << 4u8) | lo;
        proof {
            assert(byte == packed_byte(left, right)) by (bit_vector)
                requires
                    hi == left & 0x0f,
                    lo == right & 0x0f,
                    byte == (hi << 4u8) | lo,
            ;
        }
        out.push(byte);
        k += 1;
    }
    assert(out@ =~= packed_4bpp(indexed@));
    out
}

/// Packing keeps every nibble: for codes below 16, the high nibble of byte `i`
/// is pixel `2i` and the low nibble is pixel `2i + 1` (0 when the pixel count is odd).
pub proof fn lemma_pack_4bpp_keeps_nibbles(indexed: Seq<u8>, i: int)
    requires
        forall|k: int| 0 <= k < indexed.len() ==> indexed[k] < 16,
        0 <= i < packed_4bpp(indexed).len(),
    ensures
        packed_4bpp(indexed)[i] >> 4u8 == indexed[2 * i],
        packed_4bpp(indexed)[i] & 0x0f == (if 2 * i + 1 < indexed.len() {
            indexed[2 * i + 1]
        } else {
            0
        }),
{
    let a = indexed[2 * i];
    let b: u8 = if 2 * i + 1 < indexed.len() {
        indexed[2 * i + 1]
    } else {
        0
    };
    let p = packed_byte(a, b);
    assert(p >> 4u8 == a && p & 0x0f == b) by (bit_vector)
        requires
            a < 16,
            b < 16,
            p == (((a & 0x0f) << 4u8) | (b & 0x0f)) as u8,
    ;
}

/// Every palette colour has a valid Spectra 6 code, and the code identifies the colour.
pub proof fn lemma_codes_identify_colors(c: Color)
    ensures
        is_valid_code(c.spec_code()),
        Color::spec_from_code(c.spec_code()) == Some(c),
        c.spec_code() != 4,
{
}

} // verus!
