//! Putting a wall together: layouts from the config, tiles for each display,
//! preview outlines and status lines.
use vstd::prelude::*;
use crate::config::{Config, DisplayConfig, Mounting, all_resolve, is_resolve_error, resolved, spec_dims};
use crate::discovery::DisplayInfo;
use crate::error::PaintressError;
use crate::image::{IndexedImage, lemma_row_col, lemma_raster_index};
use crate::layout::{Placement, tiles_disjoint};
use crate::layout::freeform::{
    FreeformBuilder, FreeformEntry, FreeformLayout, band_offset, band_total, canvas_fits,
    lemma_freeform_tiles_disjoint, lemma_offset_monotone, placement_of,
};
use crate::palette::packed_4bpp;
use crate::text::{decimal, decimal_string, str_eq};

verus! {

/// The freeform entries for resolved config entries: each display at its
/// configured cell, rotated to compensate for its mounting.
pub open spec fn layout_entries(pairs: Seq<(DisplayConfig, DisplayInfo)>) -> Seq<FreeformEntry> {
    pairs.map_values(
        |p: (DisplayConfig, DisplayInfo)|
            FreeformEntry {
                display: p.1,
                col: p.0.col,
                row: p.0.row,
                rotation: p.0.mounted.spec_rotation(),
            },
    )
}

/// Each configured display sits in its configured cell: its tile starts at the
/// offset of the entry's column and of the entry's row, carries the display that
/// answered, turned for the entry's mounting. Entries in one column share their
/// left edge and entries in one row share their top edge; entries in different
/// cells get tiles that share no pixel.
pub proof fn lemma_config_cells(pairs: Seq<(DisplayConfig, DisplayInfo)>, i: int, j: int)
    requires
        canvas_fits(layout_entries(pairs)),
        0 <= i < pairs.len(),
        0 <= j < pairs.len(),
    ensures
        ({
            let es = layout_entries(pairs);
            let p = placement_of(es, es[i]);
            let q = placement_of(es, es[j]);
            &&& p.display == pairs[i].1
            &&& p.rotation == pairs[i].0.mounted.spec_rotation()
            &&& p.x == band_offset(es, false, pairs[i].0.col as nat)
            &&& p.y == band_offset(es, true, pairs[i].0.row as nat)
            &&& pairs[i].0.col == pairs[j].0.col ==> p.x == q.x
            &&& pairs[i].0.row == pairs[j].0.row ==> p.y == q.y
            &&& (pairs[i].0.col != pairs[j].0.col || pairs[i].0.row != pairs[j].0.row)
                ==> tiles_disjoint(p, q)
        }),
{
    let es = layout_entries(pairs);
    assert(es[i].col == pairs[i].0.col && es[i].row == pairs[i].0.row);
    assert(es[j].col == pairs[j].0.col && es[j].row == pairs[j].0.row);
    lemma_offset_monotone(es, false, pairs[i].0.col as nat, 0x1_0000_0000);
    lemma_offset_monotone(es, true, pairs[i].0.row as nat, 0x1_0000_0000);
    lemma_freeform_tiles_disjoint(es, i, j);
}

fn builder_for(pairs: &Vec<(&DisplayConfig, &DisplayInfo)>, Ghost(want): Ghost<
    Seq<(DisplayConfig, DisplayInfo)>,
>) -> (r: (FreeformBuilder, Vec<(DisplayInfo, Mounting)>))
    requires
        pairs@.len() == want.len(),
        forall|i: int|
            0 <= i < pairs@.len() ==> *(#[trigger] pairs@[i]).0 == want[i].0 && *pairs@[i].1
                == want[i].1,
    ensures
        r.0@ == layout_entries(want),
        r.1@.len() == want.len(),
        forall|i: int| 0 <= i < want.len() ==> #[trigger] r.1@[i] == (want[i].1, want[i].0.mounted),
{
    let mut builder = FreeformBuilder::new();
    let mut infos: Vec<(DisplayInfo, Mounting)> = Vec::new();
    let mut i: usize = 0;
    while i < pairs.len()
        invariant
            pairs@.len() == want.len(),
            forall|k: int|
                0 <= k < pairs@.len() ==> *(#[trigger] pairs@[k]).0 == want[k].0 && *pairs@[k].1
                    == want[k].1,
            i <= want.len(),
            builder@ == layout_entries(want.take(i as int)),
            infos@.len() == i,
            forall|k: int| 0 <= k < i ==> #[trigger] infos@[k] == (want[k].1, want[k].0.mounted),
        decreases want.len() - i,
    {
        let dc = pairs[i].0;
        let di = pairs[i].1;
        builder = builder.place(di, dc.col, dc.row, dc.mounted.rotation());
        infos.push((di.clone(), dc.mounted));
        assert(layout_entries(want.take(i + 1)) =~= layout_entries(want.take(i as int)).push(
            FreeformEntry {
                display: want[i as int].1,
                col: want[i as int].0.col,
                row: want[i as int].0.row,
                rotation: want[i as int].0.mounted.spec_rotation(),
            },
        ));
        i += 1;
    }
    assert(want.take(i as int) =~= want);
    (builder, infos)
}

/// Whether the wall the config describes, with the displays that answered,
/// fits in 32-bit canvas coordinates (what `build_layout_from_config` needs).
pub fn config_layout_fits(config: &Config, discovered: &[DisplayInfo]) -> (r: bool)
    ensures
        r == canvas_fits(layout_entries(resolved(config.display@, discovered@))),
{
    let pairs = config.resolved_pairs(discovered);
    let (builder, _infos) = builder_for(&pairs, Ghost(resolved(config.display@, discovered@)));
    builder.fits_canvas()
}

/// Build the wall's layout from the config: every configured display that
/// answered sits at its configured cell, rotated to compensate for its mounting.
/// Also returns each placed display with its mounting, in config order.
/// Fails as `Config::resolve` does: when none of the configured displays
/// answered, or naming the first configured display that did not answer.
pub fn build_layout_from_config(config: &Config, discovered: &[DisplayInfo]) -> (r: Result<
    (FreeformLayout, Vec<(DisplayInfo, Mounting)>),
    PaintressError,
>)
    requires
        canvas_fits(layout_entries(resolved(config.display@, discovered@))),
    ensures
        r is Ok <==> config.display@.len() > 0 && all_resolve(config.display@, discovered@),
        r matches Err(e) ==> is_resolve_error(config.display@, discovered@, e),
        r matches Ok(res) ==> ({
            let pairs = resolved(config.display@, discovered@);
            let es = layout_entries(pairs);
            &&& res.0@.0 == band_total(es, false)
            &&& res.0@.1 == band_total(es, true)
            &&& res.0@.2.len() == es.len()
            &&& forall|i: int|
                0 <= i < es.len() ==> #[trigger] res.0@.2[i] == placement_of(es, es[i])
            &&& res.1@.len() == pairs.len()
            &&& forall|i: int|
                0 <= i < pairs.len() ==> #[trigger] res.1@[i] == (pairs[i].1, pairs[i].0.mounted)
        }),
{
    let pairs = match config.resolve(discovered) {
        Ok(pairs) => pairs,
        Err(e) => {
            return Err(e);
        },
    };
    let (builder, infos) = builder_for(&pairs, Ghost(resolved(config.display@, discovered@)));
    match builder.build() {
        Ok(layout) => Ok((layout, infos)),
        Err(e) => Err(e),
    }
}

/// Whether entry `e` stands for config entry `dc` in an offline preview: a
/// stand-in display with the entry's serial as id, no address, and the entry's
/// panel size, at the entry's cell, rotated for its mounting.
pub open spec fn is_preview_entry(e: FreeformEntry, dc: DisplayConfig) -> bool {
    &&& e.display.id == dc.serial
    &&& e.display.ip@ == Seq::<char>::empty()
    &&& e.display.port == 0
    &&& e.display.hostname@ == Seq::<char>::empty()
    &&& (e.display.width, e.display.height) == spec_dims(dc)
    &&& e.col == dc.col
    &&& e.row == dc.row
    &&& e.rotation == dc.mounted.spec_rotation()
}

/// A layout builder for previewing the configured wall without a network.
pub fn preview_builder(config: &Config) -> (b: FreeformBuilder)
    ensures
        b@.len() == config.display@.len(),
        forall|i: int|
            0 <= i < config.display@.len() ==> is_preview_entry(
                #[trigger] b@[i],
                config.display@[i],
            ),
{
    let mut builder = FreeformBuilder::new();
    let mut i: usize = 0;
    while i < config.display.len()
        invariant
            i <= config.display@.len(),
            builder@.len() == i,
            forall|k: int|
                0 <= k < i ==> is_preview_entry(#[trigger] builder@[k], config.display@[k]),
        decreases config.display@.len() - i,
    {
        let dc = &config.display[i];
        let (width, height) = dc.dims();
        let stand_in = DisplayInfo {
            id: dc.serial.clone(),
            ip: String::new(),
            port: 0,
            hostname: String::new(),
            width,
            height,
        };
        builder = builder.place(&stand_in, dc.col, dc.row, dc.mounted.rotation());
        i += 1;
    }
    builder
}

/// The first config entry for the display with id `serial`.
pub fn config_entry<'a>(config: &'a Config, serial: &str) -> (r: Option<&'a DisplayConfig>)
    ensures
        match r {
            Some(dc) => exists|i: int|
                0 <= i < config.display@.len() && *dc == config.display@[i]
                    && config.display@[i].serial@ == serial@ && forall|j: int|
                    0 <= j < i ==> (#[trigger] config.display@[j]).serial@ != serial@,
            None => forall|i: int|
                0 <= i < config.display@.len() ==> (#[trigger] config.display@[i]).serial@
                    != serial@,
        },
{
    let mut i: usize = 0;
    while i < config.display.len()
        invariant
            i <= config.display@.len(),
            forall|j: int| 0 <= j < i ==> (#[trigger] config.display@[j]).serial@ != serial@,
        decreases config.display@.len() - i,
    {
        if str_eq(config.display[i].serial.as_str(), serial) {
            return Some(&config.display[i]);
        }
        i += 1;
    }
    None
}

/// Whether placement `p`'s tile lies inside a `width` by `height` canvas.
pub fn placement_fits(p: &Placement, width: u32, height: u32) -> (r: bool)
    ensures
        r == (p.x as nat + p.canvas_w as nat <= width as nat && p.y as nat + p.canvas_h as nat
            <= height as nat),
{
    (p.x as u64) + (p.canvas_w as u64) <= width as u64 && (p.y as u64) + (p.canvas_h as u64)
        <= height as u64
}

/// The packed 4bpp data for one display: its tile cut from the dithered canvas,
/// rotated for the display.
pub fn tile_payload(image: &IndexedImage, p: &Placement) -> (packed: Vec<u8>)
    requires
        image.wf(),
        p.x as nat + p.canvas_w as nat <= image.width as nat,
        p.y as nat + p.canvas_h as nat <= image.height as nat,
    ensures
        packed@ == packed_4bpp(
            p.rotation.rotated(
                image.cropped(p.x, p.y, p.canvas_w, p.canvas_h),
                p.canvas_w as nat,
                p.canvas_h as nat,
            ),
        ),
{
    let tile = image.crop(p.x, p.y, p.canvas_w, p.canvas_h);
    tile.pack_rotated(p.rotation)
}

/// The preview colour of tile outlines.
pub open spec fn outline_rgb() -> Seq<u8> {
    seq![255u8, 0u8, 255u8]
}

/// Whether pixel (`x`, `y`) of a `w` by `h` preview lies on the drawn outline of
/// `p`'s tile: its top edge unless at the canvas top, its bottom edge unless at
/// the canvas bottom, and likewise its left and right edges.
pub open spec fn on_outline(p: Placement, x: int, y: int, w: int, h: int) -> bool {
    let x0 = p.x as int;
    let y0 = p.y as int;
    let x1 = p.x + p.canvas_w;
    let y1 = p.y + p.canvas_h;
    ||| x0 <= x < x1 && ((y == y0 && y0 > 0) || (y == y1 - 1 && y1 < h))
    ||| y0 <= y < y1 && ((x == x0 && x0 > 0) || (x == x1 - 1 && x1 < w))
}

/// Whether pixel (`x`, `y`) lies on the outline of some tile.
pub open spec fn outlined(ps: Seq<Placement>, x: int, y: int, w: int, h: int) -> bool {
    exists|i: int| 0 <= i < ps.len() && on_outline(#[trigger] ps[i], x, y, w, h)
}

/// Every pixel of `p`'s outline on a `w` by `h` canvas lies on the canvas, and
/// its edges are computable in 32 bits: a drawn top or bottom edge must lie in
/// the canvas over the tile's whole width, a drawn left or right edge over its
/// whole height.
pub open spec fn outline_fits(p: Placement, w: nat, h: nat) -> bool {
    &&& p.x + p.canvas_w <= u32::MAX
    &&& p.y + p.canvas_h <= u32::MAX
    &&& (p.canvas_w > 0 && p.y > 0) ==> p.x + p.canvas_w <= w && p.y < h
    &&& (p.canvas_w > 0 && p.y + p.canvas_h < h) ==> p.x + p.canvas_w <= w && p.y + p.canvas_h >= 1
    &&& (p.canvas_h > 0 && p.x > 0) ==> p.y + p.canvas_h <= h && p.x < w
    &&& (p.canvas_h > 0 && p.x + p.canvas_w < w) ==> p.y + p.canvas_h <= h && p.x + p.canvas_w >= 1
}

/// Whether every tile's outline can be drawn on a `width` by `height` canvas
/// (what `outline_tiles` needs).
pub fn outlines_fit(placements: &[Placement], width: u32, height: u32) -> (r: bool)
    ensures
        r == forall|i: int|
            0 <= i < placements@.len() ==> outline_fits(
                #[trigger] placements@[i],
                width as nat,
                height as nat,
            ),
{
    let w = width as u64;
    let h = height as u64;
    let mut i: usize = 0;
    while i < placements.len()
        invariant
            w == width,
            h == height,
            i <= placements@.len(),
            forall|k: int|
                0 <= k < i ==> outline_fits(#[trigger] placements@[k], width as nat, height as nat),
        decreases placements@.len() - i,
    {
        let p = &placements[i];
        let x0 = p.x as u64;
        let y0 = p.y as u64;
        let x1 = x0 + p.canvas_w as u64;
        let y1 = y0 + p.canvas_h as u64;
        let cw = p.canvas_w as u64;
        let ch = p.canvas_h as u64;
        let fits = x1 <= u32::MAX as u64 && y1 <= u32::MAX as u64 && (!(cw > 0 && y0 > 0) || (x1
            <= w && y0 < h)) && (!(cw > 0 && y1 < h) || (x1 <= w && y1 >= 1)) && (!(ch > 0 && x0
            > 0) || (y1 <= h && x0 < w)) && (!(ch > 0 && x1 < w) || (y1 <= h && x1 >= 1));
        if !fits {
            return false;
        }
        i += 1;
    }
    true
}

fn pixel_outlined(ps: &[Placement], x: u64, y: u64, w: u64, h: u64) -> (r: bool)
    ensures
        r == outlined(ps@, x as int, y as int, w as int, h as int),
{
    let mut i: usize = 0;
    while i < ps.len()
        invariant
            i <= ps@.len(),
            forall|k: int|
                0 <= k < i ==> !on_outline(#[trigger] ps@[k], x as int, y as int, w as int, h as int),
        decreases ps@.len() - i,
    {
        let p = &ps[i];
        let x0 = p.x as u64;
        let y0 = p.y as u64;
        let x1 = x0 + p.canvas_w as u64;
        let y1 = y0 + p.canvas_h as u64;
        let horizontal = x0 <= x && x < x1 && ((y == y0 && y0 > 0) || (y1 >= 1 && y == y1 - 1 && y1
            < h));
        let vertical = y0 <= y && y < y1 && ((x == x0 && x0 > 0) || (x1 >= 1 && x == x1 - 1 && x1
            < w));
        if horizontal || vertical {
            return true;
        }
        i += 1;
    }
    false
}

/// Draw the outline of every tile onto a row-major RGB preview (three bytes
/// per pixel) of a `width` by `height` canvas.
pub fn outline_tiles(rgb: &mut Vec<u8>, width: u32, height: u32, placements: &[Placement])
    requires
        old(rgb)@.len() == 3 * (width as nat * height as nat),
        forall|i: int|
            0 <= i < placements@.len() ==> outline_fits(
                #[trigger] placements@[i],
                width as nat,
                height as nat,
            ),
    ensures
        final(rgb)@.len() == old(rgb)@.len(),
        forall|x: int, y: int, k: int|
            0 <= x < width && 0 <= y < height && 0 <= k < 3 ==> #[trigger] final(rgb)@[3 * (y
                * width + x) + k] == if outlined(
                placements@,
                x,
                y,
                width as int,
                height as int,
            ) {
                outline_rgb()[k]
            } else {
                old(rgb)@[3 * (y * width + x) + k]
            },
{
    let ghost before = rgb@;
    let len = rgb.len();
    let w = width as usize;
    let n = (width as usize) * (height as usize);
    let mut i: usize = 0;
    while i < n
        invariant
            w == width,
            n == width as nat * height as nat,
            rgb@.len() == 3 * n,
            len == 3 * n,
            before.len() == 3 * n,
            i <= n,
            forall|j: int, k: int|
                0 <= j < i && 0 <= k < 3 ==> #[trigger] rgb@[3 * j + k] == if outlined(
                    placements@,
                    j % (width as int),
                    j / (width as int),
                    width as int,
                    height as int,
                ) {
                    outline_rgb()[k]
                } else {
                    before[3 * j + k]
                },
            forall|j: int| i * 3 <= j < 3 * n ==> rgb@[j] == before[j],
        decreases n - i,
    {
        proof {
            lemma_raster_index(0, i as int, n as int, 1);
        }
        let x = i % w;
        let y = i / w;
        if pixel_outlined(placements, x as u64, y as u64, width as u64, height as u64) {
            rgb.set(3 * i, 255);
            rgb.set(3 * i + 1, 0);
            rgb.set(3 * i + 2, 255);
        }
        i += 1;
    }
    assert forall|x: int, y: int, k: int|
        0 <= x < width && 0 <= y < height && 0 <= k < 3 implies #[trigger] rgb@[3 * (y * width
        + x) + k] == if outlined(placements@, x, y, width as int, height as int) {
        outline_rgb()[k]
    } else {
        before[3 * (y * width + x) + k]
    } by {
        lemma_row_col(y, x, width as int);
        lemma_raster_index(y, x, width as int, height as int);
        assert(y * width == width * y) by (nonlinear_arith);
    }
}

/// What a display answered to a status query (absent fields are `None`).
#[derive(Debug)]
pub struct StatusReport {
    pub id: Option<String>,
    pub status: Option<String>,
    /// Uptime in seconds.
    pub uptime: Option<u64>,
    pub ip: Option<String>,
}

/// The text of an optional string.
pub open spec fn opt_text(s: Option<String>) -> Option<Seq<char>> {
    match s {
        Some(v) => Some(v@),
        None => None,
    }
}

/// A status report's fields as plain values: id, status, uptime, IP.
pub open spec fn report_fields(r: StatusReport) -> (
    Option<Seq<char>>,
    Option<Seq<char>>,
    Option<u64>,
    Option<Seq<char>>,
) {
    (opt_text(r.id), opt_text(r.status), r.uptime, opt_text(r.ip))
}

/// What `serde_json::from_str` makes of a display's `/info` answer, read as a
/// status report: `Ok` with the "id", "status" and "ip" members that are JSON
/// strings and the "uptime" member that is an unsigned integer fitting in 64 bits
/// (each `None` when absent or of another kind), or `Err` with serde_json's
/// message when the text is not JSON.
pub uninterp spec fn info_json(text: Seq<char>) -> Result<
    (Option<Seq<char>>, Option<Seq<char>>, Option<u64>, Option<Seq<char>>),
    Seq<char>,
>;

/// Calls `serde_json::from_str` into a `serde_json::Value` and picks the report's
/// members with `Value::get`, `as_str` and `as_u64`. Claimed: the outcome is
/// `info_json` of the text; what serde_json accepts as JSON, and its error
/// messages, are left to that name.
#[verifier::external_body]
fn info_json_report(text: &str) -> (r: Result<StatusReport, String>)
    ensures
        match r {
            Ok(s) => info_json(text@) == Ok::<_, Seq<char>>(report_fields(s)),
            Err(e) => info_json(text@) == Err::<(
                Option<Seq<char>>,
                Option<Seq<char>>,
                Option<u64>,
                Option<Seq<char>>,
            ), _>(e@),
        },
{
    let v: serde_json::Value = serde_json::from_str(text).map_err(|e| e.to_string())?;
    let text_of = |k: &str| v.get(k).and_then(|x| x.as_str()).map(String::from);
    let uptime = v.get("uptime").and_then(|x| x.as_u64());
    Ok(StatusReport { id: text_of("id"), status: text_of("status"), uptime, ip: text_of("ip") })
}

/// Read a display's `/info` answer: its "id", "status" and "ip" strings and its
/// "uptime" in seconds, each `None` when missing; text that is not JSON fails
/// with `Generic` carrying the parser's message.
pub fn parse_info(text: &str) -> (r: Result<StatusReport, PaintressError>)
    ensures
        match info_json(text@) {
            Ok(f) => r matches Ok(s) && report_fields(s) == f,
            Err(m) => r matches Err(PaintressError::Generic(e)) && e@ == m,
        },
{
    match info_json_report(text) {
        Ok(s) => Ok(s),
        Err(e) => Err(PaintressError::Generic(e)),
    }
}

/// `s` when present, else `fallback`.
pub open spec fn or_else(s: Option<String>, fallback: Seq<char>) -> Seq<char> {
    match s {
        Some(v) => v@,
        None => fallback,
    }
}

/// The status line for display `d`: "  ID: STATUS  uptime=UPTIME  ip=IP", with
/// the display's own id and IP standing in for missing ones, "?" for a missing
/// status, and the uptime in seconds ("Ns") or "?".
pub open spec fn status_text(r: StatusReport, d: DisplayInfo) -> Seq<char> {
    "  "@ + or_else(r.id, d.id@) + ": "@ + or_else(r.status, "?"@) + "  uptime="@ + (match r.uptime {
        Some(v) => decimal(v as nat) + "s"@,
        None => "?"@,
    }) + "  ip="@ + or_else(r.ip, d.ip@)
}

fn pick<'a>(s: &'a Option<String>, fallback: &'a str) -> (r: &'a str)
    ensures
        r@ == or_else(*s, fallback@),
{
    match s {
        Some(v) => v.as_str(),
        None => fallback,
    }
}

/// The status line for a display that answered.
pub fn status_line(report: &StatusReport, display: &DisplayInfo) -> (line: String)
    ensures
        line@ == status_text(*report, *display),
{
    let mut line = String::from_str("  ");
    line.append(pick(&report.id, display.id.as_str()));
    line.append(": ");
    line.append(pick(&report.status, "?"));
    line.append("  uptime=");
    match report.uptime {
        Some(v) => {
            line.append(decimal_string(v).as_str());
            line.append("s");
        },
        None => {
            line.append("?");
        },
    }
    line.append("  ip=");
    line.append(pick(&report.ip, display.ip.as_str()));
    line
}

/// The status line for a display whose query failed with `message`.
pub fn status_error_line(display: &DisplayInfo, message: &str) -> (line: String)
    ensures
        line@ == "  "@ + display.id@ + ": error — "@ + message@,
{
    let mut line = String::from_str("  ");
    line.append(display.id.as_str());
    line.append(": error — ");
    line.append(message);
    line
}

} // verus!
