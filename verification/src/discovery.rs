//! Discovered displays and matching a user-supplied target against them.
use vstd::prelude::*;
use crate::error::PaintressError;
use crate::image::{DISPLAY_HEIGHT, DISPLAY_WIDTH};
use crate::text::{
    first_label, first_label_of, has_prefix, lex_lt, parse_u32, spec_parse_u32, starts_with,
    str_eq, str_lt, trim_trailing_dots, without_trailing_dots, lemma_lex_irreflexive,
    lemma_lex_transitive, lemma_lex_total,
};

verus! {

/// Information about a discovered e-ink display.
#[derive(Debug)]
pub struct DisplayInfo {
    pub id: String,
    pub ip: String,
    pub port: u16,
    pub hostname: String,
    pub width: u32,
    pub height: u32,
}

impl Clone for DisplayInfo {
    fn clone(&self) -> (r: Self)
        ensures
            r == *self,
    {
        DisplayInfo {
            id: self.id.clone(),
            ip: self.ip.clone(),
            port: self.port,
            hostname: self.hostname.clone(),
            width: self.width,
            height: self.height,
        }
    }
}

/// Whether the target string names display `d`: its id, hostname or IP exactly,
/// or a prefix of its hostname.
pub open spec fn target_matches(d: DisplayInfo, target: Seq<char>) -> bool {
    target == d.id@ || target == d.hostname@ || target == d.ip@ || has_prefix(d.hostname@, target)
}

/// What a target names: a display is named by its id, its hostname or its IP
/// exactly, or by any prefix of its hostname, and by nothing else; in particular
/// a target that is only a prefix of a display's IP does not name it.
pub proof fn lemma_target_names(d: DisplayInfo, target: Seq<char>)
    ensures
        target == d.id@ ==> target_matches(d, target),
        target == d.hostname@ ==> target_matches(d, target),
        target == d.ip@ ==> target_matches(d, target),
        has_prefix(d.hostname@, target) ==> target_matches(d, target),
        target_matches(d, target) && target != d.id@ && target != d.hostname@ && !has_prefix(
            d.hostname@,
            target,
        ) ==> target == d.ip@,
{
}

/// A target equal to display `i`'s IP, which names no earlier display by id,
/// hostname, IP or hostname prefix, names display `i` and no display before it,
/// so `resolve_target` selects display `i`.
pub proof fn lemma_ip_target_selects(ds: Seq<DisplayInfo>, target: Seq<char>, i: int)
    requires
        0 <= i < ds.len(),
        target == ds[i].ip@,
        forall|j: int|
            0 <= j < i ==> target != (#[trigger] ds[j]).id@ && target != ds[j].hostname@
                && target != ds[j].ip@ && !has_prefix(ds[j].hostname@, target),
    ensures
        target_matches(ds[i], target),
        forall|j: int| 0 <= j < i ==> !target_matches(#[trigger] ds[j], target),
{
    assert forall|j: int| 0 <= j < i implies !target_matches(#[trigger] ds[j], target) by {
        lemma_target_names(ds[j], target);
    }
}

/// The target that selects every display.
pub open spec fn is_all_target(target: Seq<char>) -> bool {
    target == "all"@
}

fn display_matches(d: &DisplayInfo, target: &str) -> (r: bool)
    ensures
        r == target_matches(*d, target@),
{
    str_eq(target, d.id.as_str()) || str_eq(target, d.hostname.as_str()) || str_eq(
        target,
        d.ip.as_str(),
    ) || starts_with(d.hostname.as_str(), target)
}

/// Resolve a target string to matching displays: "all" selects every display
/// (an error when there are none); any other target selects the first display
/// it names.
pub fn resolve_target<'a>(displays: &'a [DisplayInfo], target: &str) -> (r: Result<
    Vec<&'a DisplayInfo>,
    PaintressError,
>)
    ensures
        is_all_target(target@) ==> match r {
            Ok(v) => displays@.len() > 0 && v@.len() == displays@.len() && forall|i: int|
                0 <= i < v@.len() ==> *v@[i] == displays@[i],
            Err(e) => displays@.len() == 0 && e is NoDisplaysFound,
        },
        !is_all_target(target@) ==> match r {
            Ok(v) => v@.len() == 1 && exists|i: int|
                0 <= i < displays@.len() && target_matches(displays@[i], target@) && (forall|j: int|
                    0 <= j < i ==> !target_matches(#[trigger] displays@[j], target@)) && *v@[0]
                    == displays@[i],
            Err(e) => {
                &&& forall|i: int|
                    0 <= i < displays@.len() ==> !target_matches(#[trigger] displays@[i], target@)
                &&& e matches PaintressError::DisplayNotFound(s) && s@ == target@
            },
        },
{
    if str_eq(target, "all") {
        if displays.len() == 0 {
            return Err(PaintressError::NoDisplaysFound);
        }
        let mut all: Vec<&'a DisplayInfo> = Vec::new();
        let mut i: usize = 0;
        while i < displays.len()
            invariant
                i <= displays@.len(),
                all@.len() == i,
                forall|k: int| 0 <= k < i ==> *all@[k] == displays@[k],
            decreases displays@.len() - i,
        {
            all.push(&displays[i]);
            i += 1;
        }
        return Ok(all);
    }
    let mut i: usize = 0;
    while i < displays.len()
        invariant
            !is_all_target(target@),
            i <= displays@.len(),
            forall|j: int| 0 <= j < i ==> !target_matches(#[trigger] displays@[j], target@),
        decreases displays@.len() - i,
    {
        if display_matches(&displays[i], target) {
            let mut one: Vec<&'a DisplayInfo> = Vec::new();
            one.push(&displays[i]);
            return Ok(one);
        }
        i += 1;
    }
    Err(PaintressError::DisplayNotFound(String::from_str(target)))
}

/// One network address a service announced.
#[derive(Debug)]
pub struct ServiceAddress {
    /// The address as text.
    pub text: String,
    /// Whether it is an IPv4 address.
    pub is_ipv4: bool,
}

/// What a resolved `_eink._tcp` service announced.
#[derive(Debug)]
pub struct ServiceRecord {
    /// Full service instance name, e.g. "eink-abc123._eink._tcp.local.".
    pub fullname: String,
    /// Host name, e.g. "eink-abc123.local.".
    pub hostname: String,
    pub port: u16,
    /// The "id" TXT property, if present.
    pub id_property: Option<String>,
    /// The "width" TXT property, if present.
    pub width_property: Option<String>,
    /// The "height" TXT property, if present.
    pub height_property: Option<String>,
    /// Announced addresses, in the order they were listed.
    pub addresses: Vec<ServiceAddress>,
}

/// The first IPv4 address among `addrs`.
pub open spec fn first_ipv4(addrs: Seq<ServiceAddress>) -> Option<Seq<char>>
    decreases addrs.len(),
{
    if addrs.len() == 0 {
        None
    } else if addrs[0].is_ipv4 {
        Some(addrs[0].text@)
    } else {
        first_ipv4(addrs.drop_first())
    }
}

/// A panel dimension from a TXT property: its value when it parses as a `u32`,
/// else `fallback`.
pub open spec fn dimension(prop: Option<String>, fallback: u32) -> u32 {
    match prop {
        Some(s) => match spec_parse_u32(s@) {
            Some(v) => v,
            None => fallback,
        },
        None => fallback,
    }
}

/// The display id a service announces: its "id" property, else the first label
/// of its instance name.
pub open spec fn service_id(rec: ServiceRecord) -> Seq<char> {
    match rec.id_property {
        Some(s) => s@,
        None => first_label(rec.fullname@),
    }
}

/// Whether `d` is what the announcement `rec` describes (given it has an IPv4 address).
pub open spec fn describes(d: DisplayInfo, rec: ServiceRecord) -> bool {
    &&& d.id@ == service_id(rec)
    &&& Some(d.ip@) == first_ipv4(rec.addresses@)
    &&& d.port == rec.port
    &&& d.hostname@ == without_trailing_dots(rec.hostname@)
    &&& d.width == dimension(rec.width_property, DISPLAY_WIDTH)
    &&& d.height == dimension(rec.height_property, DISPLAY_HEIGHT)
}

fn dimension_of(prop: &Option<String>, fallback: u32) -> (v: u32)
    ensures
        v == dimension(*prop, fallback),
{
    match prop {
        Some(s) => match parse_u32(s.as_str()) {
            Some(v) => v,
            None => fallback,
        },
        None => fallback,
    }
}

fn first_ipv4_of(addrs: &Vec<ServiceAddress>) -> (r: Option<String>)
    ensures
        match r {
            Some(s) => first_ipv4(addrs@) == Some(s@),
            None => first_ipv4(addrs@) is None,
        },
{
    let mut i: usize = 0;
    assert(addrs@.skip(0) =~= addrs@);
    while i < addrs.len()
        invariant
            i <= addrs@.len(),
            first_ipv4(addrs@) == first_ipv4(addrs@.skip(i as int)),
        decreases addrs@.len() - i,
    {
        assert(addrs@.skip(i as int)[0] == addrs@[i as int]);
        if addrs[i].is_ipv4 {
            return Some(addrs[i].text.clone());
        }
        assert(addrs@.skip(i as int).drop_first() =~= addrs@.skip(i + 1));
        i += 1;
    }
    None
}

/// The display a resolved service announces; `None` when it announced no IPv4 address.
pub fn display_from_service(rec: &ServiceRecord) -> (r: Option<DisplayInfo>)
    ensures
        r is Some <==> first_ipv4(rec.addresses@) is Some,
        r matches Some(d) ==> describes(d, *rec),
{
    let ip = match first_ipv4_of(&rec.addresses) {
        Some(ip) => ip,
        None => {
            return None;
        },
    };
    let id = match &rec.id_property {
        Some(s) => s.clone(),
        None => first_label_of(rec.fullname.as_str()),
    };
    Some(
        DisplayInfo {
            id,
            ip,
            port: rec.port,
            hostname: trim_trailing_dots(rec.hostname.as_str()),
            width: dimension_of(&rec.width_property, DISPLAY_WIDTH),
            height: dimension_of(&rec.height_property, DISPLAY_HEIGHT),
        },
    )
}

/// Displays in strictly increasing id order (so no id occurs twice).
pub open spec fn sorted_by_id(s: Seq<DisplayInfo>) -> bool {
    forall|i: int, j: int| 0 <= i < j < s.len() ==> lex_lt(s[i].id@, s[j].id@)
}

/// The displays seen during one discovery scan, one per id (a later
/// announcement replaces an earlier one), kept in id order.
pub struct DisplayTable {
    entries: Vec<DisplayInfo>,
}

impl View for DisplayTable {
    type V = Seq<DisplayInfo>;

    closed spec fn view(&self) -> Seq<DisplayInfo> {
        self.entries@
    }
}

impl DisplayTable {
    /// The entries stay in strictly increasing id order.
    #[verifier::type_invariant]
    spec fn in_id_order(self) -> bool {
        sorted_by_id(self.entries@)
    }

    /// An empty table.
    pub fn new() -> (t: Self)
        ensures
            t@ == Seq::<DisplayInfo>::empty(),
    {
        DisplayTable { entries: Vec::new() }
    }

    /// Record an announcement: it replaces the entry with the same id, if any,
    /// and every other entry stays.
    pub fn record(&mut self, info: DisplayInfo)
        ensures
            sorted_by_id(final(self)@),
            final(self)@.contains(info),
            forall|d: DisplayInfo|
                old(self)@.contains(d) && d.id@ != info.id@ ==> final(self)@.contains(d),
            forall|d: DisplayInfo|
                final(self)@.contains(d) ==> d == info || (old(self)@.contains(d) && d.id@
                    != info.id@),
    {
        proof {
            use_type_invariant(&*self);
        }
        let mut entries: Vec<DisplayInfo> = Vec::new();
        std::mem::swap(&mut entries, &mut self.entries);
        let ghost o = entries@;
        let n = entries.len();
        let mut p: usize = 0;
        while p < n && str_lt(entries[p].id.as_str(), info.id.as_str())
            invariant
                entries@ == o,
                n == o.len(),
                p <= n,
                forall|k: int| 0 <= k < p ==> lex_lt(o[k].id@, info.id@),
            decreases n - p,
        {
            p += 1;
        }
        if p < n && str_eq(entries[p].id.as_str(), info.id.as_str()) {
            entries.set(p, info);
            proof {
                let f = entries@;
                assert forall|i: int, j: int| 0 <= i < j < f.len() implies lex_lt(
                    f[i].id@,
                    f[j].id@,
                ) by {
                    assert(f[i].id@ == o[i].id@);
                    assert(f[j].id@ == o[j].id@);
                }
                assert(f[p as int] == info);
                assert forall|d: DisplayInfo| o.contains(d) && d.id@ != info.id@ implies f.contains(
                    d,
                ) by {
                    let k = choose|k: int| 0 <= k < o.len() && o[k] == d;
                    assert(f[k] == d);
                }
                assert forall|d: DisplayInfo| f.contains(d) implies d == info || (o.contains(d)
                    && d.id@ != info.id@) by {
                    let k = choose|k: int| 0 <= k < f.len() && f[k] == d;
                    if k != p {
                        assert(o[k] == d);
                        if k < p {
                            assert(lex_lt(o[k].id@, o[p as int].id@));
                        } else {
                            assert(lex_lt(o[p as int].id@, o[k].id@));
                        }
                        lemma_lex_irreflexive(d.id@);
                    }
                }
            }
        } else {
            proof {
                if p < n {
                    lemma_lex_total(o[p as int].id@, info.id@);
                }
            }
            entries.insert(p, info);
            proof {
                let f = entries@;
                assert forall|i: int, j: int| 0 <= i < j < f.len() implies lex_lt(
                    f[i].id@,
                    f[j].id@,
                ) by {
                    if j < p {
                        assert(f[i] == o[i] && f[j] == o[j]);
                    } else if j == p {
                        assert(f[i] == o[i]);
                    } else if i < p {
                        assert(f[i] == o[i] && f[j] == o[j - 1]);
                        assert(lex_lt(o[i].id@, info.id@));
                        if j - 1 > p {
                            assert(lex_lt(o[p as int].id@, o[j - 1].id@));
                            lemma_lex_transitive(info.id@, o[p as int].id@, o[j - 1].id@);
                        }
                        lemma_lex_transitive(o[i].id@, info.id@, o[j - 1].id@);
                    } else if i == p {
                        assert(f[j] == o[j - 1]);
                        if j - 1 > p {
                            assert(lex_lt(o[p as int].id@, o[j - 1].id@));
                            lemma_lex_transitive(info.id@, o[p as int].id@, o[j - 1].id@);
                        }
                    } else {
                        assert(f[i] == o[i - 1] && f[j] == o[j - 1]);
                    }
                }
                assert(f[p as int] == info);
                assert forall|d: DisplayInfo| o.contains(d) && d.id@ != info.id@ implies f.contains(
                    d,
                ) by {
                    let k = choose|k: int| 0 <= k < o.len() && o[k] == d;
                    if k < p {
                        assert(f[k] == d);
                    } else {
                        assert(f[k + 1] == d);
                    }
                }
                assert forall|d: DisplayInfo| f.contains(d) implies d == info || (o.contains(d)
                    && d.id@ != info.id@) by {
                    let k = choose|k: int| 0 <= k < f.len() && f[k] == d;
                    if k < p {
                        assert(o[k] == d);
                        lemma_lex_irreflexive(d.id@);
                    } else if k > p {
                        assert(o[k - 1] == d);
                        if k - 1 > p {
                            assert(lex_lt(o[p as int].id@, o[k - 1].id@));
                            lemma_lex_transitive(info.id@, o[p as int].id@, o[k - 1].id@);
                        }
                        lemma_lex_irreflexive(d.id@);
                    }
                }
            }
        }
        self.entries = entries;
    }

    /// Record a resolved service: the display it announces, when it announced an
    /// IPv4 address; otherwise the table is unchanged.
    pub fn record_service(&mut self, rec: &ServiceRecord)
        ensures
            sorted_by_id(final(self)@),
            first_ipv4(rec.addresses@) is None ==> final(self)@ == old(self)@,
            first_ipv4(rec.addresses@) is Some ==> exists|info: DisplayInfo|
                describes(info, *rec) && final(self)@.contains(info) && (forall|d: DisplayInfo|
                    old(self)@.contains(d) && d.id@ != info.id@ ==> final(self)@.contains(d)) && (
                forall|d: DisplayInfo|
                    final(self)@.contains(d) ==> d == info || (old(self)@.contains(d) && d.id@
                        != info.id@)),
    {
        proof {
            use_type_invariant(&*self);
        }
        match display_from_service(rec) {
            Some(info) => {
                self.record(info);
            },
            None => {},
        }
    }

    /// The recorded displays, sorted by id.
    pub fn into_sorted(self) -> (v: Vec<DisplayInfo>)
        ensures
            v@ == self@,
            sorted_by_id(v@),
    {
        proof {
            use_type_invariant(&self);
        }
        self.entries
    }
}

} // verus!
