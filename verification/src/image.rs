use vstd::prelude::*;
use crate::error::PaintressError;
use crate::palette::{self, Color, packed_4bpp};
use crate::text::str_eq;
use vstd::arithmetic::div_mod::{lemma_fundamental_div_mod, lemma_fundamental_div_mod_converse};

verus! {

/// Native width of the reference panel, in pixels.
pub const DISPLAY_WIDTH: u32 = 800;

/// Native height of the reference panel, in pixels.
pub const DISPLAY_HEIGHT: u32 = 480;

/// Rotation applied to a tile before sending it to a display.
#[derive(Clone, Copy, Debug, PartialEq, Eq, Structural)]
pub enum Rotation {
    Identity,
    Cw90,
    Ccw90,
    Flip180,
}

impl Rotation {
    /// Whether this rotation turns the tile by a quarter turn.
    pub open spec fn is_quarter_turn(self) -> bool {
        self is Cw90 || self is Ccw90
    }

    /// Canvas dimensions a tile needs, given the display's native size.
    pub open spec fn spec_canvas_dims(self, native_w: u32, native_h: u32) -> (u32, u32) {
        if self.is_quarter_turn() {
            (native_h, native_w)
        } else {
            (native_w, native_h)
        }
    }

    /// The canvas dimensions this rotation requires, given the display's native (w, h).
    /// A quarter turn means the tile on the canvas is portrait (h×w).
    pub fn canvas_dims(self, native_w: u32, native_h: u32) -> (r: (u32, u32))
        ensures
            r == self.spec_canvas_dims(native_w, native_h),
    {
        match self {
            Rotation::Identity | Rotation::Flip180 => (native_w, native_h),
            Rotation::Cw90 | Rotation::Ccw90 => (native_h, native_w),
        }
    }
}

/// The Unicode lowercase mapping of a string (what Rust's `str::to_lowercase` returns).
pub uninterp spec fn lowercase(s: Seq<char>) -> Seq<char>;

/// Whether every character of `s` is ASCII.
pub open spec fn is_ascii_text(s: Seq<char>) -> bool {
    forall|i: int| 0 <= i < s.len() ==> (#[trigger] s[i] as u32) < 128
}

/// `c` with A-Z mapped to a-z.
pub open spec fn ascii_lower_char(c: char) -> char {
    if 'A' <= c && c <= 'Z' {
        ((c as u32) + 32) as char
    } else {
        c
    }
}

/// `s` with A-Z mapped to a-z and every other character kept.
pub open spec fn ascii_lowercase(s: Seq<char>) -> Seq<char> {
    s.map_values(|c: char| ascii_lower_char(c))
}

/// Calls `str::to_lowercase`. Claimed: the result's characters are `lowercase` of
/// the argument's, and on ASCII input A-Z become a-z while every other character
/// is kept; the Unicode mapping of other characters is left unstated.
#[verifier::external_body]
fn to_lowercase(s: &str) -> (r: String)
    ensures
        r@ == lowercase(s@),
        is_ascii_text(s@) ==> r@ == ascii_lowercase(s@),
{
    s.to_lowercase()
}

impl Rotation {
    /// The rotation a lowercase name stands for.
    pub open spec fn spec_from_lowercase(name: Seq<char>) -> Option<Rotation> {
        if name == "none"@ || name == ""@ {
            Some(Rotation::Identity)
        } else if name == "cw90"@ || name == "cw"@ {
            Some(Rotation::Cw90)
        } else if name == "ccw90"@ || name == "ccw"@ {
            Some(Rotation::Ccw90)
        } else if name == "flip180"@ || name == "flip"@ {
            Some(Rotation::Flip180)
        } else {
            None
        }
    }

    /// The canonical name of a rotation.
    pub open spec fn spec_name(self) -> Seq<char> {
        match self {
            Rotation::Identity => "none"@,
            Rotation::Cw90 => "cw90"@,
            Rotation::Ccw90 => "ccw90"@,
            Rotation::Flip180 => "flip180"@,
        }
    }

    /// The rotation named by an already lowercased name: none (or empty), cw90
    /// (or cw), ccw90 (or ccw), flip180 (or flip).
    pub fn from_lowercase(name: &str) -> (r: Result<Rotation, PaintressError>)
        ensures
            match Self::spec_from_lowercase(name@) {
                Some(rot) => r matches Ok(x) && x == rot,
                None => r matches Err(PaintressError::InvalidRotation(s)) && s@ == name@,
            },
    {
        if str_eq(name, "none") || str_eq(name, "") {
            Ok(Rotation::Identity)
        } else if str_eq(name, "cw90") || str_eq(name, "cw") {
            Ok(Rotation::Cw90)
        } else if str_eq(name, "ccw90") || str_eq(name, "ccw") {
            Ok(Rotation::Ccw90)
        } else if str_eq(name, "flip180") || str_eq(name, "flip") {
            Ok(Rotation::Flip180)
        } else {
            Err(PaintressError::InvalidRotation(String::from_str(name)))
        }
    }

    /// Parse a rotation name, ignoring case.
    pub fn parse(s: &str) -> (r: Result<Rotation, PaintressError>)
        ensures
            is_ascii_text(s@) ==> lowercase(s@) == ascii_lowercase(s@),
            match Self::spec_from_lowercase(lowercase(s@)) {
                Some(rot) => r matches Ok(x) && x == rot,
                None => r matches Err(PaintressError::InvalidRotation(e)) && e@ == lowercase(s@),
            },
    {
        let lower = to_lowercase(s);
        Self::from_lowercase(lower.as_str())
    }

    /// The canonical name of this rotation.
    pub fn name(self) -> (r: &'static str)
        ensures
            r@ == self.spec_name(),
    {
        match self {
            Rotation::Identity => "none",
            Rotation::Cw90 => "cw90",
            Rotation::Ccw90 => "ccw90",
            Rotation::Flip180 => "flip180",
        }
    }
}

impl core::str::FromStr for Rotation {
    type Err = PaintressError;

    fn from_str(s: &str) -> (r: Result<Rotation, PaintressError>)
        ensures
            is_ascii_text(s@) ==> lowercase(s@) == ascii_lowercase(s@),
            match Rotation::spec_from_lowercase(lowercase(s@)) {
                Some(rot) => r matches Ok(x) && x == rot,
                None => r matches Err(PaintressError::InvalidRotation(e)) && e@ == lowercase(s@),
            },
    {
        Rotation::parse(s)
    }
}

/// A rotation's canonical name reads back as that rotation.
pub proof fn lemma_rotation_name_round_trip(r: Rotation)
    ensures
        Rotation::spec_from_lowercase(r.spec_name()) == Some(r),
{
    reveal_strlit("none");
    reveal_strlit("");
    reveal_strlit("cw90");
    reveal_strlit("cw");
    reveal_strlit("ccw90");
    reveal_strlit("ccw");
    reveal_strlit("flip180");
    reveal_strlit("flip");
    assert("cw90"@ != "none"@) by {
        assert("cw90"@[0] != "none"@[0]);
    }
    assert("ccw90"@ != "none"@ && "ccw90"@ != "cw90"@ && "ccw90"@ != "cw"@) by {
        assert("ccw90"@.len() != "none"@.len());
        assert("ccw90"@[1] != "cw90"@[1]);
        assert("ccw90"@.len() != "cw"@.len());
    }
    assert("flip180"@ != "none"@ && "flip180"@ != "cw90"@ && "flip180"@ != "cw"@ && "flip180"@
        != "ccw90"@ && "flip180"@ != "ccw"@) by {
        assert("flip180"@.len() != "none"@.len());
        assert("flip180"@.len() != "cw90"@.len());
        assert("flip180"@.len() != "cw"@.len());
        assert("flip180"@.len() != "ccw90"@.len());
        assert("flip180"@.len() != "ccw"@.len());
    }
    assert("cw90"@ != ""@ && "ccw90"@ != ""@ && "flip180"@ != ""@) by {
        assert("cw90"@.len() != ""@.len());
        assert("ccw90"@.len() != ""@.len());
        assert("flip180"@.len() != ""@.len());
    }
}

/// Each rotation's canonical name is ASCII and already lowercase, and any ASCII
/// spelling of it that differs only in letter case reads back as that rotation;
/// with `parse`'s contract this gives `parse(name) == Ok(rotation)` and
/// case-insensitive parsing of every name and alias.
pub proof fn lemma_parse_ignores_ascii_case(r: Rotation, s: Seq<char>)
    ensures
        is_ascii_text(r.spec_name()),
        ascii_lowercase(r.spec_name()) == r.spec_name(),
        is_ascii_text(s) && ascii_lowercase(s) == r.spec_name() ==> Rotation::spec_from_lowercase(
            ascii_lowercase(s),
        ) == Some(r),
{
    reveal_strlit("none");
    reveal_strlit("cw90");
    reveal_strlit("ccw90");
    reveal_strlit("flip180");
    lemma_rotation_name_round_trip(r);
    let n = r.spec_name();
    assert(is_ascii_text(n));
    assert(ascii_lowercase(n) =~= n);
}

/// `a * w + b` stays inside a `w`-by-`h` raster when `a < h` and `b < w`.
pub proof fn lemma_raster_index(a: int, b: int, w: int, h: int)
    requires
        0 <= a < h,
        0 <= b < w,
    ensures
        0 <= a * w + b < w * h,
        a * w + b <= w * h - 1,
{
    assert(0 <= a * w + b < w * h) by (nonlinear_arith)
        requires
            0 <= a < h,
            0 <= b < w,
    ;
}

/// Row `r`, column `c` of a raster with rows of length `h` sits at `r * h + c`.
pub proof fn lemma_row_col(r: int, c: int, h: int)
    requires
        0 <= r,
        0 <= c < h,
    ensures
        (r * h + c) / h == r,
        (r * h + c) % h == c,
        r * h + c + 1 <= (r + 1) * h,
{
    lemma_fundamental_div_mod_converse(r * h + c, h, r, c);
    assert(r * h + c + 1 <= (r + 1) * h) by (nonlinear_arith)
        requires
            0 <= c < h,
    ;
}

impl Rotation {
    /// The pixels of `data` (row-major, `w` by `h`) after this rotation.
    /// A quarter turn yields a row-major raster with rows of length `h`.
    pub open spec fn rotated(self, data: Seq<u8>, w: nat, h: nat) -> Seq<u8> {
        match self {
            Rotation::Identity => data,
            Rotation::Flip180 => data.reverse(),
            Rotation::Cw90 => Seq::new(
                w * h,
                |i: int| data[(h - 1 - i % (h as int)) * w + i / (h as int)],
            ),
            Rotation::Ccw90 => Seq::new(
                w * h,
                |i: int| data[(i % (h as int)) * w + (w - 1 - i / (h as int))],
            ),
        }
    }

    /// Apply this rotation to indexed pixel data.
    /// Input is row-major `src_w` by `src_h`, output is row-major in rotated dimensions.
    pub fn apply(self, data: &[u8], src_w: u32, src_h: u32) -> (out: Vec<u8>)
        requires
            self.is_quarter_turn() ==> src_w * src_h <= data@.len(),
        ensures
            out@ == self.rotated(data@, src_w as nat, src_h as nat),
    {
        let w = src_w as usize;
        let h = src_h as usize;
        match self {
            Rotation::Identity => {
                let mut out: Vec<u8> = Vec::new();
                let mut i: usize = 0;
                while i < data.len()
                    invariant
                        i <= data@.len(),
                        out@ == data@.subrange(0, i as int),
                    decreases data@.len() - i,
                {
                    out.push(data[i]);
                    i += 1;
                }
                out
            },
            Rotation::Flip180 => {
                let n = data.len();
                let mut out: Vec<u8> = Vec::new();
                let mut i: usize = 0;
                while i < n
                    invariant
                        n == data@.len(),
                        i <= n,
                        out@.len() == i,
                        forall|k: int| 0 <= k < i ==> out@[k] == data@[n - 1 - k],
                    decreases n - i,
                {
                    out.push(data[n - 1 - i]);
                    i += 1;
                }
                assert(out@ =~= data@.reverse());
                out
            },
            Rotation::Cw90 => {
                let n = data.len();
                let ghost spec_out = self.rotated(data@, w as nat, h as nat);
                let mut out: Vec<u8> = Vec::new();
                let mut r: usize = 0;
                while r < w
                    invariant
                        w == src_w,
                        h == src_h,
                        spec_out == self.rotated(data@, w as nat, h as nat),
                        self == Rotation::Cw90,
                        w * h <= data@.len(),
                        n == data@.len(),
                        r <= w,
                        out@.len() == r * h,
                        forall|i: int| 0 <= i < out@.len() ==> out@[i] == spec_out[i],
                    decreases w - r,
                {
                    let mut c: usize = 0;
                    while c < h
                        invariant
                            w == src_w,
                            h == src_h,
                            spec_out == self.rotated(data@, w as nat, h as nat),
                            self == Rotation::Cw90,
                            w * h <= data@.len(),
                            n == data@.len(),
                            r < w,
                            c <= h,
                            out@.len() == r * h + c,
                            forall|i: int| 0 <= i < out@.len() ==> out@[i] == spec_out[i],
                        decreases h - c,
                    {
                        proof {
                            lemma_raster_index((h - 1 - c) as int, r as int, w as int, h as int);
                            lemma_raster_index(r as int, c as int, h as int, w as int);
                            lemma_row_col(r as int, c as int, h as int);
                        }
                        let v = data[(h - 1 - c) * w + r];
                        out.push(v);
                        c += 1;
                    }
                    proof {
                        assert((r + 1) * h == r * h + h) by (nonlinear_arith);
                    }
                    r += 1;
                }
                proof {
                    assert(out@.len() == spec_out.len());
                }
                assert(out@ =~= spec_out);
                out
            },
            Rotation::Ccw90 => {
                let n = data.len();
                let ghost spec_out = self.rotated(data@, w as nat, h as nat);
                let mut out: Vec<u8> = Vec::new();
                let mut r: usize = 0;
                while r < w
                    invariant
                        w == src_w,
                        h == src_h,
                        spec_out == self.rotated(data@, w as nat, h as nat),
                        self == Rotation::Ccw90,
                        w * h <= data@.len(),
                        n == data@.len(),
                        r <= w,
                        out@.len() == r * h,
                        forall|i: int| 0 <= i < out@.len() ==> out@[i] == spec_out[i],
                    decreases w - r,
                {
                    let mut c: usize = 0;
                    while c < h
                        invariant
                            w == src_w,
                            h == src_h,
                            spec_out == self.rotated(data@, w as nat, h as nat),
                            self == Rotation::Ccw90,
                            w * h <= data@.len(),
                            n == data@.len(),
                            r < w,
                            c <= h,
                            out@.len() == r * h + c,
                            forall|i: int| 0 <= i < out@.len() ==> out@[i] == spec_out[i],
                        decreases h - c,
                    {
                        proof {
                            lemma_raster_index(c as int, (w - 1 - r) as int, w as int, h as int);
                            lemma_raster_index(r as int, c as int, h as int, w as int);
                            lemma_row_col(r as int, c as int, h as int);
                        }
                        let v = data[c * w + (w - 1 - r)];
                        out.push(v);
                        c += 1;
                    }
                    proof {
                        assert((r + 1) * h == r * h + h) by (nonlinear_arith);
                    }
                    r += 1;
                }
                assert(out@ =~= spec_out);
                out
            },
        }
    }
}

/// Splits a raster index `j` of a `w`-wide raster into its row and column.
pub proof fn lemma_split_index(j: int, w: int, h: int)
    requires
        0 <= j < w * h,
        0 < w,
    ensures
        0 <= j / w < h,
        0 <= j % w < w,
        j == (j / w) * w + j % w,
{
    lemma_fundamental_div_mod(j, w);
    assert(0 <= j % w < w);
    assert((j / w) * w == w * (j / w)) by (nonlinear_arith);
    assert(0 <= j / w < h) by (nonlinear_arith)
        requires
            j == w * (j / w) + j % w,
            0 <= j % w < w,
            0 <= j < w * h,
            0 < w,
    ;
}

/// A clockwise quarter turn followed by a counter-clockwise quarter turn of the
/// turned (`h` by `w`) raster gives back the starting `w` by `h` pixels.
pub proof fn lemma_cw_then_ccw_restores(data: Seq<u8>, w: nat, h: nat)
    requires
        w * h <= data.len(),
    ensures
        Rotation::Ccw90.rotated(Rotation::Cw90.rotated(data, w, h), h, w) =~= data.subrange(
            0,
            (w * h) as int,
        ),
{
    let a = Rotation::Cw90.rotated(data, w, h);
    let b = Rotation::Ccw90.rotated(a, h, w);
    assert(h * w == w * h) by (nonlinear_arith);
    if w > 0 && h > 0 {
        assert forall|j: int| 0 <= j < w * h implies b[j] == data[j] by {
            lemma_split_index(j, w as int, h as int);
            let y = j / (w as int);
            let x = j % (w as int);
            let i = x * h + (h - 1 - y);
            lemma_raster_index(x, h - 1 - y, h as int, w as int);
            lemma_row_col(x, h - 1 - y, h as int);
            lemma_raster_index(y, x, w as int, h as int);
            assert(b[j] == a[i]);
        }
    } else {
        assert(w * h == 0) by (nonlinear_arith)
            requires
                w == 0 || h == 0,
        ;
    }
}

/// A counter-clockwise quarter turn followed by a clockwise quarter turn of the
/// turned (`h` by `w`) raster gives back the starting `w` by `h` pixels.
pub proof fn lemma_ccw_then_cw_restores(data: Seq<u8>, w: nat, h: nat)
    requires
        w * h <= data.len(),
    ensures
        Rotation::Cw90.rotated(Rotation::Ccw90.rotated(data, w, h), h, w) =~= data.subrange(
            0,
            (w * h) as int,
        ),
{
    let a = Rotation::Ccw90.rotated(data, w, h);
    let b = Rotation::Cw90.rotated(a, h, w);
    assert(h * w == w * h) by (nonlinear_arith);
    if w > 0 && h > 0 {
        assert forall|j: int| 0 <= j < w * h implies b[j] == data[j] by {
            lemma_split_index(j, w as int, h as int);
            let y = j / (w as int);
            let x = j % (w as int);
            let i = (w - 1 - x) * h + y;
            lemma_raster_index(w - 1 - x, y, h as int, w as int);
            lemma_row_col(w - 1 - x, y, h as int);
            lemma_raster_index(y, x, w as int, h as int);
            assert(b[j] == a[i]);
        }
    } else {
        assert(w * h == 0) by (nonlinear_arith)
            requires
                w == 0 || h == 0,
        ;
    }
}

/// Two clockwise quarter turns of a full `w` by `h` raster make a half turn.
pub proof fn lemma_two_cw_make_half_turn(data: Seq<u8>, w: nat, h: nat)
    requires
        w * h == data.len(),
    ensures
        Rotation::Cw90.rotated(Rotation::Cw90.rotated(data, w, h), h, w) =~= Rotation::Flip180.rotated(
            data,
            w,
            h,
        ),
{
    let a = Rotation::Cw90.rotated(data, w, h);
    let b = Rotation::Cw90.rotated(a, h, w);
    assert(h * w == w * h) by (nonlinear_arith);
    if w > 0 && h > 0 {
        assert forall|j: int| 0 <= j < w * h implies b[j] == data.reverse()[j] by {
            lemma_split_index(j, w as int, h as int);
            let y = j / (w as int);
            let x = j % (w as int);
            let i = (w - 1 - x) * h + y;
            lemma_raster_index(w - 1 - x, y, h as int, w as int);
            lemma_row_col(w - 1 - x, y, h as int);
            lemma_raster_index(h - 1 - y, w - 1 - x, w as int, h as int);
            assert(b[j] == a[i]);
            assert((h - 1 - y) * w + (w - 1 - x) == w * h - 1 - j) by (nonlinear_arith)
                requires
                    j == y * w + x,
            ;
        }
    } else {
        assert(w * h == 0) by (nonlinear_arith)
            requires
                w == 0 || h == 0,
        ;
    }
}

/// A half turn applied twice gives back the starting pixels.
pub proof fn lemma_half_turn_involution(data: Seq<u8>, w: nat, h: nat)
    ensures
        Rotation::Flip180.rotated(Rotation::Flip180.rotated(data, w, h), w, h) =~= data,
{
}

/// Rotating a full `w` by `h` raster keeps its pixel count, and the canvas
/// a rotated tile occupies has the same area as the native panel.
pub proof fn lemma_rotation_keeps_pixel_count(rot: Rotation, data: Seq<u8>, w: u32, h: u32)
    requires
        data.len() == w as nat * h as nat,
    ensures
        rot.rotated(data, w as nat, h as nat).len() == data.len(),
        rot.spec_canvas_dims(w, h).0 as nat * rot.spec_canvas_dims(w, h).1 as nat == data.len(),
{
    assert(h as nat * w as nat == w as nat * h as nat) by (nonlinear_arith);
}

/// A dithered image in indexed palette form.
pub struct IndexedImage {
    pub width: u32,
    pub height: u32,
    /// Row-major palette codes.
    pub data: Vec<u8>,
}

/// The colour a stored code is previewed in: its palette colour, or white
/// for a code that no Spectra 6 colour has.
pub open spec fn preview_color(code: u8) -> Color {
    match Color::spec_from_code(code) {
        Some(c) => c,
        None => Color::White,
    }
}

/// A pixel holding a palette colour's code previews in that colour, and one
/// holding a code no colour has previews white.
pub proof fn lemma_preview_shows_stored_color(c: Color, code: u8)
    ensures
        preview_color(c.spec_code()) == c,
        preview_color(c.spec_code()).spec_rgb_u8() == c.spec_rgb_u8(),
        !palette::is_valid_code(code) ==> preview_color(code) == Color::White,
{
}

impl IndexedImage {
    /// The image holds exactly one code per pixel.
    pub open spec fn wf(&self) -> bool {
        self.data@.len() == self.width as nat * self.height as nat
    }

    /// Codes of the `w` by `h` tile whose top-left corner is (`x`, `y`).
    pub open spec fn cropped(&self, x: u32, y: u32, w: u32, h: u32) -> Seq<u8> {
        Seq::new(
            w as nat * h as nat,
            |i: int| self.data@[(y + i / (w as int)) * self.width + x + i % (w as int)],
        )
    }

    /// Extract a rectangular tile from this image.
    pub fn crop(&self, x: u32, y: u32, w: u32, h: u32) -> (tile: IndexedImage)
        requires
            self.wf(),
            x as nat + w as nat <= self.width as nat,
            y as nat + h as nat <= self.height as nat,
        ensures
            tile.width == w,
            tile.height == h,
            tile.data@ == self.cropped(x, y, w, h),
            tile.wf(),
    {
        let ghost want = self.cropped(x, y, w, h);
        let n = self.data.len();
        let width = self.width as usize;
        let mut data: Vec<u8> = Vec::new();
        let mut row: usize = 0;
        while row < h as usize
            invariant
                self.wf(),
                n == self.data@.len(),
                width == self.width,
                x as nat + w as nat <= self.width as nat,
                y as nat + h as nat <= self.height as nat,
                want == self.cropped(x, y, w, h),
                row <= h,
                data@.len() == row * w,
                forall|i: int| 0 <= i < data@.len() ==> data@[i] == want[i],
            decreases h - row,
        {
            let mut col: usize = 0;
            while col < w as usize
                invariant
                    self.wf(),
                    n == self.data@.len(),
                    width == self.width,
                    x as nat + w as nat <= self.width as nat,
                    y as nat + h as nat <= self.height as nat,
                    want == self.cropped(x, y, w, h),
                    row < h,
                    col <= w,
                    data@.len() == row * w + col,
                    forall|i: int| 0 <= i < data@.len() ==> data@[i] == want[i],
                decreases w - col,
            {
                proof {
                    lemma_raster_index(
                        y + row as int,
                        x + col as int,
                        self.width as int,
                        self.height as int,
                    );
                    lemma_raster_index(row as int, col as int, w as int, h as int);
                    lemma_row_col(row as int, col as int, w as int);
                }
                let v = self.data[(y as usize + row) * width + x as usize + col];
                data.push(v);
                col += 1;
            }
            proof {
                assert((row + 1) * w == row * w + w) by (nonlinear_arith);
            }
            row += 1;
        }
        proof {
            assert(data@.len() == w as nat * h as nat) by (nonlinear_arith)
                requires
                    data@.len() == row * w,
                    row == h,
            ;
        }
        assert(data@ =~= want);
        IndexedImage { width: w, height: h, data }
    }

    /// Rotate this tile and pack it to 4bpp for the display.
    pub fn pack_rotated(&self, rotation: Rotation) -> (packed: Vec<u8>)
        requires
            self.wf(),
        ensures
            packed@ == packed_4bpp(
                rotation.rotated(self.data@, self.width as nat, self.height as nat),
            ),
    {
        let rotated = rotation.apply(self.data.as_slice(), self.width, self.height);
        palette::pack_4bpp(rotated.as_slice())
    }

    /// Row-major 8-bit RGB bytes (three per pixel) previewing this image:
    /// each code in its palette colour, codes without a colour in white.
    pub fn to_rgb(&self) -> (rgb: Vec<u8>)
        ensures
            rgb@.len() == 3 * self.data@.len(),
            forall|i: int, k: int|
                0 <= i < self.data@.len() && 0 <= k < 3 ==> #[trigger] rgb@[3 * i + k]
                    == preview_color(self.data@[i]).spec_rgb_u8()[k],
    {
        let n = self.data.len();
        let mut rgb: Vec<u8> = Vec::new();
        let mut i: usize = 0;
        while i < n
            invariant
                n == self.data@.len(),
                i <= n,
                rgb@.len() == 3 * i,
                forall|j: int, k: int|
                    0 <= j < i && 0 <= k < 3 ==> #[trigger] rgb@[3 * j + k]
                        == preview_color(self.data@[j]).spec_rgb_u8()[k],
            decreases n - i,
        {
            let color = match Color::from_code(self.data[i]) {
                Some(c) => c,
                None => Color::White,
            };
            let px = color.rgb_u8();
            rgb.push(px[0]);
            rgb.push(px[1]);
            rgb.push(px[2]);
            proof {
                assert forall|j: int, k: int|
                    0 <= j < i + 1 && 0 <= k < 3 implies #[trigger] rgb@[3 * j + k]
                    == preview_color(self.data@[j]).spec_rgb_u8()[k] by {
                    if j == i {
                        assert(color == preview_color(self.data@[j]));
                    }
                }
            }
            i += 1;
        }
        rgb
    }
}

} // verus!
