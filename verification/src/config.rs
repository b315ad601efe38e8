//! The display-wall configuration: which display hangs where, and how.
use vstd::prelude::*;
use crate::discovery::DisplayInfo;
use crate::error::PaintressError;
use crate::image::{Rotation, DISPLAY_HEIGHT, DISPLAY_WIDTH};
use crate::text::{lex_lt, lemma_lex_total, lemma_lex_transitive, lemma_lex_irreflexive, str_eq, str_lt};

verus! {

/// Physical mounting orientation of a display: which edge of the display is at the top.
#[derive(Clone, Copy, Debug, PartialEq, Eq, Structural)]
pub enum Mounting {
    Landscape,
    /// Portrait with the left edge at the top.
    PortraitLeft,
    /// Portrait with the right edge at the top.
    PortraitRight,
    /// Upside-down landscape.
    UpsideDown,
}

impl Default for Mounting {
    fn default() -> (m: Self)
        ensures
            m == Mounting::Landscape,
    {
        Mounting::Landscape
    }
}

impl Mounting {
    /// The rotation that compensates for a mounting.
    pub open spec fn spec_rotation(self) -> Rotation {
        match self {
            Mounting::Landscape => Rotation::Identity,
            Mounting::PortraitLeft => Rotation::Cw90,
            Mounting::PortraitRight => Rotation::Ccw90,
            Mounting::UpsideDown => Rotation::Flip180,
        }
    }

    /// The rotation needed to compensate for this physical mounting.
    pub fn rotation(self) -> (r: Rotation)
        ensures
            r == self.spec_rotation(),
    {
        match self {
            Mounting::Landscape => Rotation::Identity,
            Mounting::PortraitLeft => Rotation::Cw90,
            Mounting::PortraitRight => Rotation::Ccw90,
            Mounting::UpsideDown => Rotation::Flip180,
        }
    }
}

/// A display entry in the config file.
#[derive(Debug)]
pub struct DisplayConfig {
    /// Discovery serial / ID (e.g. "eink-abc123").
    pub serial: String,
    /// Human-friendly name (editable by the user).
    pub name: String,
    /// Grid column (0-indexed, left to right).
    pub col: u32,
    /// Grid row (0-indexed, top to bottom).
    pub row: u32,
    /// How the display is physically mounted.
    pub mounted: Mounting,
    /// Native panel width in pixels, as last reported by the display; absent in
    /// configs written before panel sizes were recorded.
    pub width: Option<u32>,
    /// Native panel height in pixels, as last reported by the display.
    pub height: Option<u32>,
}

impl Clone for DisplayConfig {
    fn clone(&self) -> (r: Self)
        ensures
            r == *self,
    {
        DisplayConfig {
            serial: self.serial.clone(),
            name: self.name.clone(),
            col: self.col,
            row: self.row,
            mounted: self.mounted,
            width: self.width,
            height: self.height,
        }
    }
}

/// Native panel size of an entry, falling back to the reference panel's size.
pub open spec fn spec_dims(dc: DisplayConfig) -> (u32, u32) {
    (
        match dc.width {
            Some(w) => w,
            None => DISPLAY_WIDTH,
        },
        match dc.height {
            Some(h) => h,
            None => DISPLAY_HEIGHT,
        },
    )
}

impl DisplayConfig {
    /// Native panel dimensions, falling back to the reference panel's size for
    /// configs written before panel size was recorded.
    pub fn dims(&self) -> (r: (u32, u32))
        ensures
            r == spec_dims(*self),
    {
        (
            match self.width {
                Some(w) => w,
                None => DISPLAY_WIDTH,
            },
            match self.height {
                Some(h) => h,
                None => DISPLAY_HEIGHT,
            },
        )
    }
}

/// Top-level config.
#[derive(Debug)]
pub struct Config {
    pub display: Vec<DisplayConfig>,
}

/// The entry a newly found display gets: named after its id, at column `col` of
/// row 0, landscape, with its reported size.
pub open spec fn new_entry(d: DisplayInfo, col: u32) -> DisplayConfig {
    DisplayConfig {
        serial: d.id,
        name: d.id,
        col,
        row: 0,
        mounted: Mounting::Landscape,
        width: Some(d.width),
        height: Some(d.height),
    }
}

/// `s` with `d` inserted right after the last entry whose id does not sort after
/// `d`'s (into an id-ordered `s`, this keeps the order, and equal ids keep their
/// arrival order).
pub open spec fn insert_by_id(s: Seq<DisplayInfo>, d: DisplayInfo) -> Seq<DisplayInfo>
    decreases s.len(),
{
    if s.len() > 0 && lex_lt(d.id@, s.last().id@) {
        insert_by_id(s.drop_last(), d).push(s.last())
    } else {
        s.push(d)
    }
}

/// `ds` sorted by id; displays with equal ids keep their order.
pub open spec fn by_id(ds: Seq<DisplayInfo>) -> Seq<DisplayInfo>
    decreases ds.len(),
{
    if ds.len() == 0 {
        Seq::empty()
    } else {
        insert_by_id(by_id(ds.drop_last()), ds.last())
    }
}

/// Ids never decrease along `s`.
pub open spec fn ids_ascending(s: Seq<DisplayInfo>) -> bool {
    forall|i: int, j: int| 0 <= i < j < s.len() ==> !lex_lt(s[j].id@, s[i].id@)
}

proof fn lemma_id_le_transitive(a: Seq<char>, b: Seq<char>, c: Seq<char>)
    requires
        !lex_lt(b, a),
        !lex_lt(c, b),
    ensures
        !lex_lt(c, a),
{
    if lex_lt(c, a) {
        if a == b {
        } else if lex_lt(a, b) {
            lemma_lex_transitive(c, a, b);
        } else {
            lemma_lex_total(a, b);
        }
    }
}

proof fn lemma_insert_by_id_at(s: Seq<DisplayInfo>, d: DisplayInfo, p: int)
    requires
        0 <= p <= s.len(),
        forall|k: int| p <= k < s.len() ==> lex_lt(d.id@, (#[trigger] s[k]).id@),
        p > 0 ==> !lex_lt(d.id@, s[p - 1].id@),
    ensures
        insert_by_id(s, d) =~= s.take(p).push(d) + s.skip(p),
    decreases s.len(),
{
    if p < s.len() {
        lemma_insert_by_id_at(s.drop_last(), d, p);
        assert(s.drop_last().take(p) =~= s.take(p));
        assert(s.drop_last().skip(p).push(s.last()) =~= s.skip(p));
    } else {
        assert(s.take(p) =~= s);
        assert(s.skip(p) =~= Seq::<DisplayInfo>::empty());
    }
}

proof fn lemma_insert_by_id_len(s: Seq<DisplayInfo>, d: DisplayInfo)
    ensures
        insert_by_id(s, d).len() == s.len() + 1,
    decreases s.len(),
{
    if s.len() > 0 && lex_lt(d.id@, s.last().id@) {
        lemma_insert_by_id_len(s.drop_last(), d);
    }
}

proof fn lemma_insert_by_id_multiset(s: Seq<DisplayInfo>, d: DisplayInfo)
    ensures
        insert_by_id(s, d).to_multiset() =~= s.to_multiset().insert(d),
    decreases s.len(),
{
    broadcast use vstd::seq_lib::to_multiset_build;

    if s.len() > 0 && lex_lt(d.id@, s.last().id@) {
        lemma_insert_by_id_multiset(s.drop_last(), d);
        assert(s.drop_last().push(s.last()) =~= s);
    }
}

proof fn lemma_insert_by_id_members(s: Seq<DisplayInfo>, d: DisplayInfo, k: int)
    requires
        0 <= k < insert_by_id(s, d).len(),
    ensures
        insert_by_id(s, d).len() == s.len() + 1,
        insert_by_id(s, d)[k] == d || exists|m: int| 0 <= m < s.len() && s[m] == insert_by_id(s, d)[k],
    decreases s.len(),
{
    if s.len() > 0 && lex_lt(d.id@, s.last().id@) {
        let r = insert_by_id(s.drop_last(), d);
        lemma_insert_by_id_members(s.drop_last(), d, 0);
        if k < r.len() {
            lemma_insert_by_id_members(s.drop_last(), d, k);
            if r[k] != d {
                let m = choose|m: int| 0 <= m < s.drop_last().len() && s.drop_last()[m] == r[k];
                assert(s[m] == r[k]);
            }
        } else {
            assert(s[s.len() - 1] == insert_by_id(s, d)[k]);
        }
    } else {
        if k < s.len() {
            assert(s[k] == insert_by_id(s, d)[k]);
        }
    }
}

proof fn lemma_insert_by_id_ascending(s: Seq<DisplayInfo>, d: DisplayInfo)
    requires
        ids_ascending(s),
    ensures
        ids_ascending(insert_by_id(s, d)),
    decreases s.len(),
{
    let r = insert_by_id(s, d);
    if s.len() > 0 && lex_lt(d.id@, s.last().id@) {
        let s2 = s.drop_last();
        let r2 = insert_by_id(s2, d);
        assert(ids_ascending(s2)) by {
            assert forall|i: int, j: int| 0 <= i < j < s2.len() implies !lex_lt(
                s2[j].id@,
                s2[i].id@,
            ) by {
                assert(s2[i] == s[i] && s2[j] == s[j]);
            }
        }
        lemma_insert_by_id_ascending(s2, d);
        lemma_insert_by_id_members(s2, d, 0);
        assert forall|i: int, j: int| 0 <= i < j < r.len() implies !lex_lt(r[j].id@, r[i].id@) by {
            if j < r.len() - 1 {
                assert(r[i] == r2[i] && r[j] == r2[j]);
            } else {
                lemma_insert_by_id_members(s2, d, i);
                assert(r[i] == r2[i]);
                assert(r[j] == s.last());
                if r2[i] == d {
                    lemma_lex_irreflexive(d.id@);
                    if lex_lt(s.last().id@, d.id@) {
                        lemma_lex_transitive(d.id@, s.last().id@, d.id@);
                    }
                } else {
                    let m = choose|m: int| 0 <= m < s2.len() && s2[m] == r2[i];
                    assert(s2[m] == s[m]);
                    assert(!lex_lt(s[s.len() - 1].id@, s[m].id@));
                }
            }
        }
    } else {
        assert forall|i: int, j: int| 0 <= i < j < r.len() implies !lex_lt(r[j].id@, r[i].id@) by {
            if j < s.len() {
                assert(r[i] == s[i] && r[j] == s[j]);
            } else {
                assert(r[j] == d);
                assert(r[i] == s[i]);
                if i < s.len() - 1 {
                    assert(!lex_lt(s[s.len() - 1].id@, s[i].id@));
                    lemma_id_le_transitive(s[i].id@, s[s.len() - 1].id@, d.id@);
                }
            }
        }
    }
}

/// Sorting by id yields ascending ids and the same displays, each as often as before.
pub proof fn lemma_by_id_sorts(ds: Seq<DisplayInfo>)
    ensures
        ids_ascending(by_id(ds)),
        by_id(ds).to_multiset() =~= ds.to_multiset(),
        by_id(ds).len() == ds.len(),
    decreases ds.len(),
{
    broadcast use vstd::seq_lib::to_multiset_build;
    broadcast use vstd::seq_lib::to_multiset_len;

    if ds.len() > 0 {
        lemma_by_id_sorts(ds.drop_last());
        lemma_insert_by_id_ascending(by_id(ds.drop_last()), ds.last());
        lemma_insert_by_id_multiset(by_id(ds.drop_last()), ds.last());
        lemma_insert_by_id_len(by_id(ds.drop_last()), ds.last());
        assert(ds.drop_last().push(ds.last()) =~= ds);
        assert(ds.drop_last().push(ds.last()).to_multiset() =~= ds.drop_last().to_multiset().insert(
            ds.last(),
        ));
    } else {
        assert(ds =~= Seq::<DisplayInfo>::empty());
    }
}

/// The displays of `ds` sorted by id (equal ids keep their order).
fn sort_by_id(ds: &[DisplayInfo]) -> (v: Vec<DisplayInfo>)
    ensures
        v@ == by_id(ds@),
{
    let mut v: Vec<DisplayInfo> = Vec::new();
    let mut i: usize = 0;
    assert(ds@.take(0) =~= Seq::<DisplayInfo>::empty());
    while i < ds.len()
        invariant
            i <= ds@.len(),
            v@ == by_id(ds@.take(i as int)),
        decreases ds@.len() - i,
    {
        let d = ds[i].clone();
        let mut p = v.len();
        while p > 0 && str_lt(d.id.as_str(), v[p - 1].id.as_str())
            invariant
                p <= v@.len(),
                forall|k: int| p <= k < v@.len() ==> lex_lt(d.id@, (#[trigger] v@[k]).id@),
            decreases p,
        {
            p -= 1;
        }
        proof {
            lemma_insert_by_id_at(v@, d, p as int);
            assert(ds@.take(i + 1).drop_last() =~= ds@.take(i as int));
            assert(ds@.take(i + 1).last() == ds@[i as int]);
        }
        v.insert(p, d);
        assert(v@ =~= by_id(ds@.take(i + 1)));
        i += 1;
    }
    assert(ds@.take(i as int) =~= ds@);
    v
}

/// The last report in `ds` from the display with id `id`.
pub open spec fn last_report(ds: Seq<DisplayInfo>, id: Seq<char>) -> Option<DisplayInfo>
    decreases ds.len(),
{
    if ds.len() == 0 {
        None
    } else if ds.last().id@ == id {
        Some(ds.last())
    } else {
        last_report(ds.drop_last(), id)
    }
}

/// Whether some entry of `cfg` has serial `id`.
pub open spec fn is_known(cfg: Seq<DisplayConfig>, id: Seq<char>) -> bool {
    exists|j: int| 0 <= j < cfg.len() && (#[trigger] cfg[j]).serial@ == id
}

/// The largest column of any entry, 0 when there are none.
pub open spec fn max_col(cfg: Seq<DisplayConfig>) -> nat
    decreases cfg.len(),
{
    if cfg.len() == 0 {
        0
    } else if cfg.last().col > max_col(cfg.drop_last()) {
        cfg.last().col as nat
    } else {
        max_col(cfg.drop_last())
    }
}

/// The entries appended for the displays of `ds` that `cfg` does not know, in
/// order, at consecutive columns starting at `start`.
pub open spec fn appended(cfg: Seq<DisplayConfig>, ds: Seq<DisplayInfo>, start: nat) -> Seq<
    DisplayConfig,
>
    decreases ds.len(),
{
    if ds.len() == 0 {
        Seq::empty()
    } else {
        let prev = appended(cfg, ds.drop_last(), start);
        if is_known(cfg, ds.last().id@) {
            prev
        } else {
            prev.push(new_entry(ds.last(), (start + prev.len()) as u32))
        }
    }
}

/// An entry with its panel size refreshed from the last report of its display, if any.
pub open spec fn refreshed(e: DisplayConfig, ds: Seq<DisplayInfo>) -> DisplayConfig {
    match last_report(ds, e.serial@) {
        Some(d) => DisplayConfig { width: Some(d.width), height: Some(d.height), ..e },
        None => e,
    }
}

/// The entries after merging discovered displays `ds` into `cfg`.
pub open spec fn merged(cfg: Seq<DisplayConfig>, ds: Seq<DisplayInfo>) -> Seq<DisplayConfig> {
    (cfg + appended(cfg, ds, max_col(cfg) + 1)).map_values(|e: DisplayConfig| refreshed(e, ds))
}

/// The columns handed to new displays stay within 32 bits.
pub open spec fn merge_fits(cfg: Seq<DisplayConfig>, ds: Seq<DisplayInfo>) -> bool {
    max_col(cfg) + 1 + appended(cfg, ds, max_col(cfg) + 1).len() <= u32::MAX
}

/// Config entries paired with the last report of their display, in config order,
/// skipping entries whose display did not answer.
pub open spec fn resolved(cfg: Seq<DisplayConfig>, ds: Seq<DisplayInfo>) -> Seq<
    (DisplayConfig, DisplayInfo),
>
    decreases cfg.len(),
{
    if cfg.len() == 0 {
        Seq::empty()
    } else {
        let prev = resolved(cfg.drop_last(), ds);
        match last_report(ds, cfg.last().serial@) {
            Some(d) => prev.push((cfg.last(), d)),
            None => prev,
        }
    }
}

/// Whether every config entry's display answered.
pub open spec fn all_resolve(cfg: Seq<DisplayConfig>, ds: Seq<DisplayInfo>) -> bool {
    forall|i: int| 0 <= i < cfg.len() ==> last_report(ds, (#[trigger] cfg[i]).serial@) is Some
}

/// Whether no config entry's display answered (so also for an empty config).
pub open spec fn none_resolve(cfg: Seq<DisplayConfig>, ds: Seq<DisplayInfo>) -> bool {
    forall|i: int| 0 <= i < cfg.len() ==> last_report(ds, (#[trigger] cfg[i]).serial@) is None
}

/// The error resolving `cfg` against `ds` gives: `NoDisplaysFound` when no
/// entry's display answered (an empty config included), else `DisplayNotFound`
/// with the serial of the first entry whose display did not answer.
pub open spec fn is_resolve_error(
    cfg: Seq<DisplayConfig>,
    ds: Seq<DisplayInfo>,
    e: PaintressError,
) -> bool {
    if none_resolve(cfg, ds) {
        e is NoDisplaysFound
    } else {
        e matches PaintressError::DisplayNotFound(s) && exists|i: int|
            0 <= i < cfg.len() && last_report(ds, cfg[i].serial@) is None && s@ == cfg[i].serial@
                && forall|j: int|
                0 <= j < i ==> last_report(ds, (#[trigger] cfg[j]).serial@) is Some
    }
}

/// When every entry's display answered, the resolved pairs are all entries, each
/// with its display's last report.
pub proof fn lemma_resolved_all(cfg: Seq<DisplayConfig>, ds: Seq<DisplayInfo>)
    requires
        all_resolve(cfg, ds),
    ensures
        resolved(cfg, ds).len() == cfg.len(),
        forall|i: int|
            0 <= i < cfg.len() ==> (#[trigger] resolved(cfg, ds)[i]).0 == cfg[i] && Some(
                resolved(cfg, ds)[i].1,
            ) == last_report(ds, cfg[i].serial@),
    decreases cfg.len(),
{
    if cfg.len() > 0 {
        let prev = cfg.drop_last();
        assert forall|i: int| 0 <= i < prev.len() implies last_report(
            ds,
            (#[trigger] prev[i]).serial@,
        ) is Some by {
            assert(prev[i] == cfg[i]);
        }
        lemma_resolved_all(prev, ds);
        assert(last_report(ds, cfg[cfg.len() - 1].serial@) is Some);
        assert forall|i: int| 0 <= i < cfg.len() implies (#[trigger] resolved(cfg, ds)[i]).0
            == cfg[i] && Some(resolved(cfg, ds)[i].1) == last_report(ds, cfg[i].serial@) by {
            if i < cfg.len() - 1 {
                assert(prev[i] == cfg[i]);
            }
        }
    }
}

/// Index of the last report from display `id`.
fn last_report_index(ds: &[DisplayInfo], id: &str) -> (r: Option<usize>)
    ensures
        match r {
            Some(j) => j < ds@.len() && last_report(ds@, id@) == Some(ds@[j as int]),
            None => last_report(ds@, id@) is None,
        },
{
    let mut j = ds.len();
    assert(ds@.take(j as int) =~= ds@);
    while j > 0
        invariant
            j <= ds@.len(),
            last_report(ds@, id@) == last_report(ds@.take(j as int), id@),
        decreases j,
    {
        assert(ds@.take(j as int).last() == ds@[j - 1]);
        if str_eq(ds[j - 1].id.as_str(), id) {
            return Some(j - 1);
        }
        assert(ds@.take(j as int).drop_last() =~= ds@.take(j - 1));
        j -= 1;
    }
    None
}

/// The largest column of any entry, 0 when there are none.
fn max_col_of(entries: &Vec<DisplayConfig>) -> (m: u32)
    ensures
        m == max_col(entries@),
{
    let n = entries.len();
    let mut top: u32 = 0;
    let mut i: usize = 0;
    while i < n
        invariant
            n == entries@.len(),
            i <= n,
            top == max_col(entries@.take(i as int)),
        decreases n - i,
    {
        assert(entries@.take(i + 1).drop_last() =~= entries@.take(i as int));
        if entries[i].col > top {
            top = entries[i].col;
        }
        i += 1;
    }
    assert(entries@.take(n as int) =~= entries@);
    top
}

/// Whether one of the first `n` entries has serial `id`.
fn serial_known(entries: &Vec<DisplayConfig>, n: usize, id: &str) -> (r: bool)
    requires
        n <= entries@.len(),
    ensures
        r == is_known(entries@.take(n as int), id@),
{
    let mut j: usize = 0;
    while j < n
        invariant
            n <= entries@.len(),
            j <= n,
            forall|k: int| 0 <= k < j ==> (#[trigger] entries@[k]).serial@ != id@,
        decreases n - j,
    {
        if str_eq(entries[j].serial.as_str(), id) {
            assert(entries@.take(n as int)[j as int] == entries@[j as int]);
            return true;
        }
        j += 1;
    }
    assert forall|k: int| 0 <= k < n implies (#[trigger] entries@.take(n as int)[k]).serial@
        != id@ by {
        assert(entries@.take(n as int)[k] == entries@[k]);
    }
    false
}

proof fn lemma_appended_len_monotone(
    cfg: Seq<DisplayConfig>,
    ds: Seq<DisplayInfo>,
    start: nat,
    k: int,
    n: int,
)
    requires
        0 <= k <= n <= ds.len(),
    ensures
        appended(cfg, ds.take(k), start).len() <= appended(cfg, ds.take(n), start).len(),
    decreases n - k,
{
    if k < n {
        lemma_appended_len_monotone(cfg, ds, start, k, n - 1);
        assert(ds.take(n).drop_last() =~= ds.take(n - 1));
    }
}

proof fn lemma_last_report_found(ds: Seq<DisplayInfo>, j: int)
    requires
        0 <= j < ds.len(),
    ensures
        last_report(ds, ds[j].id@) matches Some(d) && d.id@ == ds[j].id@,
    decreases ds.len(),
{
    if j < ds.len() - 1 && ds.last().id@ != ds[j].id@ {
        lemma_last_report_found(ds.drop_last(), j);
    }
}

proof fn lemma_max_col_bounds(cfg: Seq<DisplayConfig>, i: int)
    requires
        0 <= i < cfg.len(),
    ensures
        cfg[i].col <= max_col(cfg),
    decreases cfg.len(),
{
    if i < cfg.len() - 1 {
        lemma_max_col_bounds(cfg.drop_last(), i);
    }
}

proof fn lemma_appended_shape(cfg: Seq<DisplayConfig>, ds: Seq<DisplayInfo>, start: nat, m: int)
    requires
        0 <= m < appended(cfg, ds, start).len(),
        start + appended(cfg, ds, start).len() <= u32::MAX + 1,
    ensures
        appended(cfg, ds, start)[m].col == start + m,
        appended(cfg, ds, start)[m].row == 0,
        appended(cfg, ds, start)[m].mounted == Mounting::Landscape,
        !is_known(cfg, appended(cfg, ds, start)[m].serial@),
    decreases ds.len(),
{
    let prev = appended(cfg, ds.drop_last(), start);
    if m < prev.len() {
        lemma_appended_shape(cfg, ds.drop_last(), start, m);
    }
}

proof fn lemma_appended_covers(cfg: Seq<DisplayConfig>, ds: Seq<DisplayInfo>, start: nat, j: int)
    requires
        0 <= j < ds.len(),
        !is_known(cfg, ds[j].id@),
    ensures
        exists|m: int|
            0 <= m < appended(cfg, ds, start).len() && (#[trigger] appended(cfg, ds, start)[m]).serial@
                == ds[j].id@,
    decreases ds.len(),
{
    let prev = appended(cfg, ds.drop_last(), start);
    if j < ds.len() - 1 {
        lemma_appended_covers(cfg, ds.drop_last(), start, j);
        let m = choose|m: int|
            0 <= m < prev.len() && (#[trigger] prev[m]).serial@ == ds.drop_last()[j].id@;
        assert(appended(cfg, ds, start)[m] == prev[m]);
    } else {
        assert(appended(cfg, ds, start)[prev.len() as int].serial@ == ds[j].id@);
    }
}

/// Merging never touches what the user chose: every existing entry keeps its
/// serial, name, column, row and mounting, in its place.
pub proof fn lemma_merge_preserves_user_fields(cfg: Seq<DisplayConfig>, ds: Seq<DisplayInfo>, i: int)
    requires
        0 <= i < cfg.len(),
    ensures
        merged(cfg, ds).len() >= cfg.len(),
        merged(cfg, ds)[i].serial == cfg[i].serial,
        merged(cfg, ds)[i].name == cfg[i].name,
        merged(cfg, ds)[i].col == cfg[i].col,
        merged(cfg, ds)[i].row == cfg[i].row,
        merged(cfg, ds)[i].mounted == cfg[i].mounted,
{
    assert((cfg + appended(cfg, ds, max_col(cfg) + 1))[i] == cfg[i]);
}

/// An entry whose display did not answer is left exactly as it was (it is not dropped).
pub proof fn lemma_merge_keeps_offline(cfg: Seq<DisplayConfig>, ds: Seq<DisplayInfo>, i: int)
    requires
        0 <= i < cfg.len(),
        last_report(ds, cfg[i].serial@) is None,
    ensures
        merged(cfg, ds)[i] == cfg[i],
{
    assert((cfg + appended(cfg, ds, max_col(cfg) + 1))[i] == cfg[i]);
}

/// After merging, every discovered display has an entry, and that entry has the
/// panel size the display reported last.
pub proof fn lemma_merge_records_reported_size(cfg: Seq<DisplayConfig>, ds: Seq<DisplayInfo>, j: int)
    requires
        0 <= j < ds.len(),
    ensures
        exists|k: int|
            0 <= k < merged(cfg, ds).len() && (#[trigger] merged(cfg, ds)[k]).serial@ == ds[j].id@
                && spec_dims(merged(cfg, ds)[k]) == (
                last_report(ds, ds[j].id@).unwrap().width,
                last_report(ds, ds[j].id@).unwrap().height,
            ),
{
    let start = max_col(cfg) + 1;
    let all = cfg + appended(cfg, ds, start);
    lemma_last_report_found(ds, j);
    if is_known(cfg, ds[j].id@) {
        let k = choose|k: int| 0 <= k < cfg.len() && (#[trigger] cfg[k]).serial@ == ds[j].id@;
        assert(all[k] == cfg[k]);
        assert(merged(cfg, ds)[k] == refreshed(all[k], ds));
    } else {
        lemma_appended_covers(cfg, ds, start, j);
        let m = choose|m: int|
            0 <= m < appended(cfg, ds, start).len() && (#[trigger] appended(
                cfg,
                ds,
                start,
            )[m]).serial@ == ds[j].id@;
        let k = cfg.len() + m;
        assert(all[k] == appended(cfg, ds, start)[m]);
        assert(merged(cfg, ds)[k] == refreshed(all[k], ds));
    }
}

/// Displays new to the config land in row 0, landscape, right of every existing
/// column, one column apart in discovery order.
pub proof fn lemma_merge_places_new_displays(cfg: Seq<DisplayConfig>, ds: Seq<DisplayInfo>, k: int)
    requires
        merge_fits(cfg, ds),
        cfg.len() <= k < merged(cfg, ds).len(),
    ensures
        merged(cfg, ds)[k].col == max_col(cfg) + 1 + (k - cfg.len()),
        forall|i: int| 0 <= i < cfg.len() ==> (#[trigger] cfg[i]).col < merged(cfg, ds)[k].col,
        merged(cfg, ds)[k].row == 0,
        merged(cfg, ds)[k].mounted == Mounting::Landscape,
        !is_known(cfg, merged(cfg, ds)[k].serial@),
{
    let start = max_col(cfg) + 1;
    let all = cfg + appended(cfg, ds, start);
    let m = k - cfg.len();
    lemma_appended_shape(cfg, ds, start, m);
    assert(all[k] == appended(cfg, ds, start)[m]);
    assert(merged(cfg, ds)[k] == refreshed(all[k], ds));
    assert forall|i: int| 0 <= i < cfg.len() implies (#[trigger] cfg[i]).col < merged(
        cfg,
        ds,
    )[k].col by {
        lemma_max_col_bounds(cfg, i);
    }
}

proof fn lemma_appended_all_known(cfg: Seq<DisplayConfig>, ds: Seq<DisplayInfo>, start: nat)
    requires
        forall|j: int| 0 <= j < ds.len() ==> is_known(cfg, (#[trigger] ds[j]).id@),
    ensures
        appended(cfg, ds, start) == Seq::<DisplayConfig>::empty(),
    decreases ds.len(),
{
    if ds.len() > 0 {
        let prev = ds.drop_last();
        assert forall|j: int| 0 <= j < prev.len() implies is_known(cfg, (#[trigger] prev[j]).id@) by {
            assert(prev[j] == ds[j]);
        }
        lemma_appended_all_known(cfg, prev, start);
        assert(is_known(cfg, ds[ds.len() - 1].id@));
    }
}

/// Merging the same discovery round twice changes nothing the second time:
/// every display is already known and already has its reported size.
pub proof fn lemma_merge_idempotent(cfg: Seq<DisplayConfig>, ds: Seq<DisplayInfo>)
    ensures
        merged(merged(cfg, ds), ds) == merged(cfg, ds),
{
    let m = merged(cfg, ds);
    assert forall|j: int| 0 <= j < ds.len() implies is_known(m, (#[trigger] ds[j]).id@) by {
        lemma_merge_records_reported_size(cfg, ds, j);
    }
    lemma_appended_all_known(m, ds, max_col(m) + 1);
    let all = cfg + appended(cfg, ds, max_col(cfg) + 1);
    assert forall|k: int| 0 <= k < m.len() implies refreshed(#[trigger] m[k], ds) == m[k] by {
        assert(m[k] == refreshed(all[k], ds));
    }
    assert(merged(m, ds) =~= m);
}

impl Config {
    /// A config for freshly discovered displays: a single row sorted by id, all
    /// landscape, each named after its id and with its reported size.
    pub fn from_discovered(displays: &[DisplayInfo]) -> (cfg: Config)
        ensures
            cfg.display@.len() == displays@.len(),
            forall|i: int|
                0 <= i < displays@.len() ==> #[trigger] cfg.display@[i] == new_entry(
                    by_id(displays@)[i],
                    i as u32,
                ),
    {
        let sorted = sort_by_id(displays);
        proof {
            lemma_by_id_sorts(displays@);
        }
        let mut display: Vec<DisplayConfig> = Vec::new();
        let mut i: usize = 0;
        while i < sorted.len()
            invariant
                sorted@ == by_id(displays@),
                sorted@.len() == displays@.len(),
                i <= sorted@.len(),
                display@.len() == i,
                forall|k: int|
                    0 <= k < i ==> #[trigger] display@[k] == new_entry(sorted@[k], k as u32),
            decreases sorted@.len() - i,
        {
            let d = &sorted[i];
            display.push(
                DisplayConfig {
                    serial: d.id.clone(),
                    name: d.id.clone(),
                    col: i as u32,
                    row: 0,
                    mounted: Mounting::Landscape,
                    width: Some(d.width),
                    height: Some(d.height),
                },
            );
            i += 1;
        }
        Config { display }
    }

    /// Whether merging `displays` keeps every assigned column within 32 bits
    /// (what `merge_discovered` needs).
    pub fn can_merge(&self, displays: &[DisplayInfo]) -> (r: bool)
        ensures
            r == merge_fits(self.display@, displays@),
    {
        let ghost cfg = self.display@;
        let old_len = self.display.len();
        let top = max_col_of(&self.display);
        let ghost start: nat = max_col(cfg) + 1;
        let mut count: u64 = 0;
        let mut k: usize = 0;
        assert(appended(cfg, displays@.take(0), start) =~= Seq::<DisplayConfig>::empty());
        while k < displays.len()
            invariant
                old_len == cfg.len(),
                self.display@ == cfg,
                start == max_col(cfg) + 1,
                top == max_col(cfg),
                k <= displays@.len(),
                count == appended(cfg, displays@.take(k as int), start).len(),
                count <= k,
            decreases displays@.len() - k,
        {
            assert(displays@.take(k + 1).drop_last() =~= displays@.take(k as int));
            assert(displays@.take(k + 1).last() == displays@[k as int]);
            assert(self.display@.take(old_len as int) =~= cfg);
            if !serial_known(&self.display, old_len, displays[k].id.as_str()) {
                count += 1;
            }
            k += 1;
        }
        assert(displays@.take(k as int) =~= displays@);
        count <= u32::MAX as u64 && (top as u64) + 1 + count <= u32::MAX as u64
    }

    /// Merge newly discovered displays into this config:
    /// - existing entries keep their serial, name, position and mounting;
    /// - each entry whose display answered takes the panel size it reported last;
    /// - displays the config did not know are appended in discovery order, named
    ///   after their id, landscape, in row 0 at the columns right of the largest one.
    pub fn merge_discovered(&mut self, displays: &[DisplayInfo])
        requires
            merge_fits(old(self).display@, displays@),
        ensures
            final(self).display@ == merged(old(self).display@, displays@),
    {
        let ghost old_cfg = self.display@;
        let old_len = self.display.len();
        let top = max_col_of(&self.display);
        let ghost start: nat = max_col(old_cfg) + 1;
        proof {
            lemma_appended_len_monotone(old_cfg, displays@, start, 0, displays@.len() as int);
            assert(displays@.take(displays@.len() as int) =~= displays@);
        }
        let mut next_col: u32 = top + 1;
        let mut k: usize = 0;
        assert(old_cfg + appended(old_cfg, displays@.take(0), start) =~= old_cfg);
        while k < displays.len()
            invariant
                old_len == old_cfg.len(),
                start == max_col(old_cfg) + 1,
                merge_fits(old_cfg, displays@),
                k <= displays@.len(),
                self.display@ == old_cfg + appended(old_cfg, displays@.take(k as int), start),
                next_col == start + appended(old_cfg, displays@.take(k as int), start).len(),
            decreases displays@.len() - k,
        {
            let d = &displays[k];
            let ghost prev = appended(old_cfg, displays@.take(k as int), start);
            assert(displays@.take(k + 1).drop_last() =~= displays@.take(k as int));
            assert(displays@.take(k + 1).last() == displays@[k as int]);
            assert(self.display@.take(old_len as int) =~= old_cfg);
            proof {
                lemma_appended_len_monotone(
                    old_cfg,
                    displays@,
                    start,
                    k + 1,
                    displays@.len() as int,
                );
                assert(displays@.take(displays@.len() as int) =~= displays@);
            }
            if !serial_known(&self.display, old_len, d.id.as_str()) {
                self.display.push(
                    DisplayConfig {
                        serial: d.id.clone(),
                        name: d.id.clone(),
                        col: next_col,
                        row: 0,
                        mounted: Mounting::Landscape,
                        width: Some(d.width),
                        height: Some(d.height),
                    },
                );
                assert(self.display@ =~= old_cfg + appended(
                    old_cfg,
                    displays@.take(k + 1),
                    start,
                ));
                next_col += 1;
            }
            k += 1;
        }
        assert(displays@.take(k as int) =~= displays@);
        let ghost all = self.display@;
        let mut out: Vec<DisplayConfig> = Vec::new();
        let mut j: usize = 0;
        while j < self.display.len()
            invariant
                self.display@ == all,
                j <= all.len(),
                out@.len() == j,
                forall|c: int| 0 <= c < j ==> #[trigger] out@[c] == refreshed(all[c], displays@),
            decreases all.len() - j,
        {
            let e = self.display[j].clone();
            match last_report_index(displays, e.serial.as_str()) {
                Some(r) => {
                    let d = &displays[r];
                    out.push(
                        DisplayConfig { width: Some(d.width), height: Some(d.height), ..e },
                    );
                },
                None => {
                    out.push(e);
                },
            }
            j += 1;
        }
        assert(out@ =~= merged(old_cfg, displays@));
        self.display = out;
    }

    /// Each config entry whose display answered, paired with that display's last
    /// report, in config order.
    pub(crate) fn resolved_pairs<'a>(&'a self, discovered: &'a [DisplayInfo]) -> (v: Vec<
        (&'a DisplayConfig, &'a DisplayInfo),
    >)
        ensures
            v@.len() == resolved(self.display@, discovered@).len(),
            forall|i: int|
                0 <= i < v@.len() ==> *(#[trigger] v@[i]).0 == resolved(
                    self.display@,
                    discovered@,
                )[i].0 && *v@[i].1 == resolved(self.display@, discovered@)[i].1,
    {
        let mut pairs: Vec<(&'a DisplayConfig, &'a DisplayInfo)> = Vec::new();
        let mut i: usize = 0;
        assert(self.display@.take(0) =~= Seq::<DisplayConfig>::empty());
        while i < self.display.len()
            invariant
                i <= self.display@.len(),
                pairs@.len() == resolved(self.display@.take(i as int), discovered@).len(),
                forall|k: int|
                    0 <= k < pairs@.len() ==> *(#[trigger] pairs@[k]).0 == resolved(
                        self.display@.take(i as int),
                        discovered@,
                    )[k].0 && *pairs@[k].1 == resolved(self.display@.take(i as int), discovered@)[k].1,
            decreases self.display@.len() - i,
        {
            let dc = &self.display[i];
            assert(self.display@.take(i + 1).drop_last() =~= self.display@.take(i as int));
            assert(self.display@.take(i + 1).last() == *dc);
            match last_report_index(discovered, dc.serial.as_str()) {
                Some(j) => {
                    pairs.push((dc, &discovered[j]));
                },
                None => {},
            }
            i += 1;
        }
        assert(self.display@.take(i as int) =~= self.display@);
        pairs
    }

    /// Pair every config entry with the display that answered for it (its last
    /// report), in config order. Fails with `NoDisplaysFound` when none of the
    /// configured displays answered (or the config has no entries), and with
    /// `DisplayNotFound` naming the first configured display that is missing
    /// from the network when only some answered.
    pub fn resolve<'a>(&'a self, discovered: &'a [DisplayInfo]) -> (r: Result<
        Vec<(&'a DisplayConfig, &'a DisplayInfo)>,
        PaintressError,
    >)
        ensures
            r is Ok <==> self.display@.len() > 0 && all_resolve(self.display@, discovered@),
            r matches Err(e) ==> is_resolve_error(self.display@, discovered@, e),
            r matches Ok(v) ==> v@.len() == self.display@.len() && forall|i: int|
                0 <= i < v@.len() ==> *(#[trigger] v@[i]).0 == self.display@[i] && Some(*v@[i].1)
                    == last_report(discovered@, self.display@[i].serial@),
            r matches Ok(v) ==> v@.len() == resolved(self.display@, discovered@).len() && forall|
                i: int,
            |
                0 <= i < v@.len() ==> *(#[trigger] v@[i]).0 == resolved(
                    self.display@,
                    discovered@,
                )[i].0 && *v@[i].1 == resolved(self.display@, discovered@)[i].1,
    {
        let mut any = false;
        let mut k: usize = 0;
        while k < self.display.len()
            invariant
                k <= self.display@.len(),
                any <==> exists|j: int|
                    0 <= j < k && last_report(discovered@, (#[trigger] self.display@[j]).serial@)
                        is Some,
            decreases self.display@.len() - k,
        {
            if last_report_index(discovered, self.display[k].serial.as_str()).is_some() {
                any = true;
            }
            k += 1;
        }
        if !any {
            proof {
                if self.display@.len() > 0 {
                    assert(last_report(discovered@, self.display@[0].serial@) is None);
                }
            }
            return Err(PaintressError::NoDisplaysFound);
        }
        let mut i: usize = 0;
        while i < self.display.len()
            invariant
                !none_resolve(self.display@, discovered@),
                i <= self.display@.len(),
                forall|j: int|
                    0 <= j < i ==> last_report(discovered@, (#[trigger] self.display@[j]).serial@)
                        is Some,
            decreases self.display@.len() - i,
        {
            if last_report_index(discovered, self.display[i].serial.as_str()).is_none() {
                return Err(PaintressError::DisplayNotFound(self.display[i].serial.clone()));
            }
            i += 1;
        }
        proof {
            lemma_resolved_all(self.display@, discovered@);
        }
        Ok(self.resolved_pairs(discovered))
    }

    /// The config to use after a discovery round: the existing one with the
    /// discovered displays merged in, or a fresh one when there is none.
    pub fn reconciled(existing: Option<Config>, displays: &[DisplayInfo]) -> (cfg: Config)
        requires
            existing matches Some(c) ==> merge_fits(c.display@, displays@),
        ensures
            match existing {
                Some(c) => cfg.display@ == merged(c.display@, displays@),
                None => cfg.display@.len() == displays@.len() && forall|i: int|
                    0 <= i < displays@.len() ==> #[trigger] cfg.display@[i] == new_entry(
                        by_id(displays@)[i],
                        i as u32,
                    ),
            },
    {
        match existing {
            Some(mut cfg) => {
                cfg.merge_discovered(displays);
                cfg
            },
            None => Config::from_discovered(displays),
        }
    }
}

} // verus!
