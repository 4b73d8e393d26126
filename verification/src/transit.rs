//! The stop document of the bus pass: for every route that reaches the
//! generation scope, its kept stops (those inside the scope), every stop
//! such a route keeps (with the routes through it and how its position was
//! matched), the stops no route could place, and a per-route report.
//! Which stops lie inside the scope is decided by the caller (it is
//! geometry); this module takes one flag per matched stop.

use crate::bus_stops::matching::{matched_view, unplaced_view, Confidence, MatchedStop, UnplacedReason, UnplacedStop};
use crate::text::{dec_digits, digits_of_u64, string_from_chars, string_of};
use vstd::prelude::*;

verus! {

broadcast use vstd::string::group_string_axioms;

/// The confidence tier as `stops.json` writes it.
pub open spec fn confidence_text(c: Confidence) -> Seq<char> {
    match c {
        Confidence::High => "high"@,
        Confidence::Medium => "medium"@,
        Confidence::Low => "low"@,
    }
}

/// The confidence tier's name.
pub fn confidence_str(c: Confidence) -> (s: &'static str)
    ensures
        s@ == confidence_text(c),
{
    match c {
        Confidence::High => "high",
        Confidence::Medium => "medium",
        Confidence::Low => "low",
    }
}

/// The unplaced reason as `stops.json` writes it.
pub open spec fn reason_text(r: UnplacedReason) -> Seq<char> {
    match r {
        UnplacedReason::NoNameMatch => "no_name_match"@,
        UnplacedReason::AmbiguousNoRouteContext { .. } => "ambiguous_no_route_context"@,
    }
}

/// The unplaced reason's name.
pub fn reason_str(r: UnplacedReason) -> (s: &'static str)
    ensures
        s@ == reason_text(r),
{
    match r {
        UnplacedReason::NoNameMatch => "no_name_match",
        UnplacedReason::AmbiguousNoRouteContext { .. } => "ambiguous_no_route_context",
    }
}

/// How a matched stop's position was found: a substring guess, the only
/// stop of that name, or the route-geometry choice among several.
pub open spec fn method_text(via_substring: bool, candidate_count: usize) -> Seq<char> {
    if via_substring {
        "substring_fallback"@
    } else if candidate_count == 1 {
        "unambiguous"@
    } else {
        "route_geometry"@
    }
}

/// The match method's name.
pub fn match_method(via_substring: bool, candidate_count: usize) -> (s: &'static str)
    ensures
        s@ == method_text(via_substring, candidate_count),
{
    if via_substring {
        "substring_fallback"
    } else if candidate_count == 1 {
        "unambiguous"
    } else {
        "route_geometry"
    }
}

/// One route's matching outcome, with the scope decision for each matched
/// stop (`in_scope[i]` for `matched[i]`).
pub struct RouteOutcome {
    pub route_no: String,
    pub total_csv_stops: usize,
    pub matched: Vec<MatchedStop>,
    pub in_scope: Vec<bool>,
    pub unplaced: Vec<UnplacedStop>,
    pub abnormal_hop_count: usize,
}

/// One stop of the stop table: id, name and block position.
pub struct StopInfo {
    pub bstopid: u64,
    pub name: String,
    pub x: i32,
    pub z: i32,
}

/// Per-route tallies for the console report: the confidence tiers,
/// unplaced and abnormal-hop counts over the whole matched route, and how
/// many matched stops the scope kept or cut.
pub struct RouteReport {
    pub route_no: String,
    pub total_csv_stops: usize,
    pub high: usize,
    pub medium: usize,
    pub low: usize,
    pub unplaced: usize,
    pub abnormal_hop_count: usize,
    pub kept: usize,
    pub cut: usize,
}

impl RouteReport {
    /// Whether the route needs a human look: an unplaced stop or an
    /// abnormal hop.
    pub fn flagged(&self) -> (r: bool)
        ensures
            r == (self.unplaced > 0 || self.abnormal_hop_count > 0),
    {
        self.unplaced > 0 || self.abnormal_hop_count > 0
    }
}

/// How a stop's position was matched, as first seen.
pub struct StopMatchInfo {
    method: &'static str,
    confidence: &'static str,
    candidates: usize,
}

/// One stop of the document.
pub struct StopEntry {
    stop_id: String,
    name: String,
    pos: (i32, i32),
    y2: Option<i32>,
    routes: Vec<String>,
    shelter: Option<bool>,
    match_info: StopMatchInfo,
}

impl StopEntry {
    /// The stop's block position.
    pub closed spec fn spec_pos(&self) -> (i32, i32) {
        self.pos
    }

    /// The stop id (decimal `bstopid`).
    pub closed spec fn spec_stop_id(&self) -> Seq<char> {
        self.stop_id@
    }

    /// The routes through the stop, in the order they were processed.
    pub closed spec fn spec_routes(&self) -> Seq<Seq<char>> {
        self.routes@.map_values(|r: String| r@)
    }

    /// The stop name.
    pub closed spec fn spec_name(&self) -> Seq<char> {
        self.name@
    }

    /// Match method, confidence and candidate count.
    pub closed spec fn spec_match(&self) -> (Seq<char>, Seq<char>, usize) {
        (self.match_info.method@, self.match_info.confidence@, self.match_info.candidates)
    }

    /// The real stop position in blocks (height and shelter are filled in
    /// later, against the built world).
    pub fn pos(&self) -> (p: (i32, i32))
        ensures
            p == self.spec_pos(),
    {
        self.pos
    }

    /// The stop id.
    pub fn stop_id(&self) -> (s: &str)
        ensures
            s@ == self.spec_stop_id(),
    {
        self.stop_id.as_str()
    }

    /// The terrain height recorded for the stop.
    pub closed spec fn spec_y2(&self) -> Option<i32> {
        self.y2
    }

    /// The shelter flag recorded for the stop.
    pub closed spec fn spec_shelter(&self) -> Option<bool> {
        self.shelter
    }

    /// The stop name.
    pub fn name(&self) -> (s: &str)
        ensures
            s@ == self.spec_name(),
    {
        self.name.as_str()
    }

    /// The terrain height (not known at matching time).
    pub fn y2(&self) -> (h: Option<i32>)
        ensures
            h == self.spec_y2(),
    {
        self.y2
    }

    /// Whether the stop has a shelter (not known at matching time).
    pub fn shelter(&self) -> (b: Option<bool>)
        ensures
            b == self.spec_shelter(),
    {
        self.shelter
    }

    /// The routes through the stop.
    pub fn routes(&self) -> (r: &[String])
        ensures
            r@.map_values(|s: String| s@) == self.spec_routes(),
    {
        self.routes.as_slice()
    }

    /// How the position was matched: method, confidence, candidate count.
    pub fn match_info(&self) -> (r: (&'static str, &'static str, usize))
        ensures
            (r.0@, r.1@, r.2) == self.spec_match(),
    {
        (self.match_info.method, self.match_info.confidence, self.match_info.candidates)
    }
}

/// One route of the document.
pub struct RouteEntry {
    route_id: String,
    links: Vec<String>,
    stops: Vec<String>,
}

impl RouteEntry {
    /// The route number.
    pub closed spec fn spec_route_id(&self) -> Seq<char> {
        self.route_id@
    }

    /// The road links the route runs along.
    pub closed spec fn spec_links(&self) -> Seq<Seq<char>> {
        self.links@.map_values(|l: String| l@)
    }

    /// The kept stop ids, in route order.
    pub closed spec fn spec_stop_ids(&self) -> Seq<Seq<char>> {
        self.stops@.map_values(|s: String| s@)
    }

    /// The route number.
    pub fn route_id(&self) -> (s: &str)
        ensures
            s@ == self.spec_route_id(),
    {
        self.route_id.as_str()
    }

    /// The route type (every route here is a city route).
    pub fn route_type(&self) -> (s: &'static str)
        ensures
            s@ == "시내"@,
    {
        "시내"
    }

    /// The road links the route runs along (filled in by routing).
    pub fn links(&self) -> (r: &[String])
        ensures
            r@.map_values(|l: String| l@) == self.spec_links(),
    {
        self.links.as_slice()
    }

    /// The kept stop ids, in route order.
    pub fn stops(&self) -> (r: &[String])
        ensures
            r@.map_values(|s: String| s@) == self.spec_stop_ids(),
    {
        self.stops.as_slice()
    }
}

/// A route stop no stop could be placed for.
pub struct UnplacedEntry {
    route_id: String,
    seq: u32,
    stop_code: String,
    stop_name: String,
    reason: &'static str,
}

impl UnplacedEntry {
    /// The fields: route, order, code, name, reason.
    pub closed spec fn spec_fields(&self) -> (Seq<char>, u32, Seq<char>, Seq<char>, Seq<char>) {
        (self.route_id@, self.seq, self.stop_code@, self.stop_name@, self.reason@)
    }

    /// The fields: route, order, code, name, reason.
    pub fn fields(&self) -> (r: (&str, u32, &str, &str, &'static str))
        ensures
            (r.0@, r.1, r.2@, r.3@, r.4@) == self.spec_fields(),
    {
        (self.route_id.as_str(), self.seq, self.stop_code.as_str(), self.stop_name.as_str(), self.reason)
    }
}

/// The stop document.
pub struct StopsDocument {
    stops: Vec<StopEntry>,
    routes: Vec<RouteEntry>,
    unplaced: Vec<UnplacedEntry>,
}

impl StopsDocument {
    /// Every kept stop.
    pub closed spec fn spec_stops(&self) -> Seq<StopEntry> {
        self.stops@
    }

    /// The routes, each its number and kept stop ids.
    pub closed spec fn spec_routes(&self) -> Seq<(Seq<char>, Seq<Seq<char>>)> {
        self.routes@.map_values(|r: RouteEntry| (r.route_id@, r.stops@.map_values(|s: String| s@)))
    }

    /// The unplaced entries: route, order, code, name, reason.
    pub closed spec fn spec_unplaced(&self) -> Seq<(Seq<char>, u32, Seq<char>, Seq<char>, Seq<char>)> {
        self.unplaced@.map_values(|u: UnplacedEntry| (u.route_id@, u.seq, u.stop_code@, u.stop_name@, u.reason@))
    }

    /// Every stop kept by a qualifying route.
    pub fn stops(&self) -> (s: &[StopEntry])
        ensures
            s@ == self.spec_stops(),
    {
        self.stops.as_slice()
    }

    /// The qualifying routes, in order.
    pub fn routes(&self) -> (r: &[RouteEntry])
        ensures
            r@.map_values(|e: RouteEntry| (e.spec_route_id(), e.spec_stop_ids())) == self.spec_routes(),
    {
        self.routes.as_slice()
    }

    /// The unplaced route stops of the qualifying routes.
    pub fn unplaced(&self) -> (r: &[UnplacedEntry])
        ensures
            r@.map_values(|u: UnplacedEntry| u.spec_fields()) == self.spec_unplaced(),
    {
        self.unplaced.as_slice()
    }

    /// The road links of each route, in route order.
    pub closed spec fn spec_route_links(&self) -> Seq<Seq<Seq<char>>> {
        self.routes@.map_values(|r: RouteEntry| r.spec_links())
    }

    /// Replaces route `i`'s road links with `links`; every other part of
    /// the document, the other routes' links included, stays as it was.
    pub fn set_route_links(&mut self, i: usize, links: Vec<String>)
        requires
            i < old(self).spec_routes().len(),
        ensures
            final(self).spec_stops() == old(self).spec_stops(),
            final(self).spec_routes() == old(self).spec_routes(),
            final(self).spec_unplaced() == old(self).spec_unplaced(),
            final(self).spec_route_links() == old(self).spec_route_links().update(
                i as int,
                links@.map_values(|l: String| l@),
            ),
    {
        let ghost before = self.routes@.map_values(|r: RouteEntry| (r.route_id@, r.stops@.map_values(|s: String| s@)));
        let ghost links_before = self.spec_route_links();
        let ghost new_links = links@.map_values(|l: String| l@);
        let mut r = self.routes.remove(i);
        r.links = links;
        assert(r.spec_links() == new_links);
        self.routes.insert(i, r);
        assert(self.routes@.map_values(|r: RouteEntry| (r.route_id@, r.stops@.map_values(|s: String| s@))) =~= before);
        assert(self.spec_route_links() =~= links_before.update(i as int, new_links));
    }
}

/// Whether a route reaches the scope: one of its matched stops lies inside
/// it and was not a substring guess (a guess is no evidence that the route
/// really goes there).
pub open spec fn qualifies(o: RouteOutcome) -> bool {
    exists|i: int|
        0 <= i < o.matched@.len() && i < o.in_scope@.len() && !o.matched@[i].via_substring && o.in_scope@[i]
}

/// Whether the route reaches the scope (see [`qualifies`]).
pub fn route_qualifies(o: &RouteOutcome) -> (r: bool)
    ensures
        r == qualifies(*o),
{
    let mut i: usize = 0;
    while i < o.matched.len() && i < o.in_scope.len()
        invariant
            i <= o.matched@.len(),
            forall|k: int| 0 <= k < i && k < o.in_scope@.len() ==> !(!o.matched@[k].via_substring && o.in_scope@[k]),
        decreases o.matched.len() - i,
    {
        if !o.matched[i].via_substring && o.in_scope[i] {
            return true;
        }
        i += 1;
    }
    false
}

/// How many of the first `n` matched stops have confidence `c`.
pub open spec fn count_confidence(m: Seq<MatchedStop>, c: Confidence, n: int) -> int
    decreases n,
{
    if n <= 0 {
        0
    } else {
        count_confidence(m, c, n - 1) + if m[n - 1].confidence == c { 1int } else { 0int }
    }
}

/// How many of the first `n` flags equal `b`.
pub open spec fn count_flags(f: Seq<bool>, b: bool, n: int) -> int
    decreases n,
{
    if n <= 0 {
        0
    } else {
        count_flags(f, b, n - 1) + if f[n - 1] == b { 1int } else { 0int }
    }
}

/// The report of one route: number, CSV stop count, confidence tiers,
/// unplaced and abnormal-hop counts, and kept/cut counts.
pub open spec fn report_of(o: RouteOutcome) -> (Seq<char>, usize, int, int, int, int, usize, int, int) {
    let n = o.matched@.len() as int;
    (
        o.route_no@,
        o.total_csv_stops,
        count_confidence(o.matched@, Confidence::High, n),
        count_confidence(o.matched@, Confidence::Medium, n),
        count_confidence(o.matched@, Confidence::Low, n),
        o.unplaced@.len() as int,
        o.abnormal_hop_count,
        count_flags(o.in_scope@, true, n),
        count_flags(o.in_scope@, false, n),
    )
}

/// A report's fields.
pub open spec fn report_view(r: RouteReport) -> (Seq<char>, usize, int, int, int, int, usize, int, int) {
    (
        r.route_no@,
        r.total_csv_stops,
        r.high as int,
        r.medium as int,
        r.low as int,
        r.unplaced as int,
        r.abnormal_hop_count,
        r.kept as int,
        r.cut as int,
    )
}

/// The report of one route.
pub fn route_report(o: &RouteOutcome) -> (r: RouteReport)
    requires
        o.in_scope@.len() == o.matched@.len(),
    ensures
        report_view(r) == report_of(*o),
{
    let (mut high, mut medium, mut low) = (0usize, 0usize, 0usize);
    let (mut kept, mut cut) = (0usize, 0usize);
    let mut i: usize = 0;
    while i < o.matched.len()
        invariant
            i <= o.matched@.len(),
            o.in_scope@.len() == o.matched@.len(),
            high == count_confidence(o.matched@, Confidence::High, i as int),
            medium == count_confidence(o.matched@, Confidence::Medium, i as int),
            low == count_confidence(o.matched@, Confidence::Low, i as int),
            kept == count_flags(o.in_scope@, true, i as int),
            cut == count_flags(o.in_scope@, false, i as int),
            high + medium + low == i,
            kept + cut == i,
        decreases o.matched.len() - i,
    {
        match o.matched[i].confidence {
            Confidence::High => high += 1,
            Confidence::Medium => medium += 1,
            Confidence::Low => low += 1,
        }
        if o.in_scope[i] {
            kept += 1;
        } else {
            cut += 1;
        }
        i += 1;
    }
    RouteReport {
        route_no: o.route_no.clone(),
        total_csv_stops: o.total_csv_stops,
        high,
        medium,
        low,
        unplaced: o.unplaced.len(),
        abnormal_hop_count: o.abnormal_hop_count,
        kept,
        cut,
    }
}

/// The ids (decimal) of the first `n` matched stops that the scope kept.
pub open spec fn kept_ids(m: Seq<MatchedStop>, in_scope: Seq<bool>, n: int) -> Seq<Seq<char>>
    decreases n,
{
    if n <= 0 {
        Seq::empty()
    } else {
        kept_ids(m, in_scope, n - 1) + if in_scope[n - 1] {
            seq![dec_digits(m[n - 1].bstopid as nat)]
        } else {
            Seq::empty()
        }
    }
}

/// A stop entry in the making: id, routes through it, match method,
/// confidence and candidate count (the last three as first seen).
pub type EntryView = (u64, Seq<Seq<char>>, Seq<char>, Seq<char>, usize);

/// Index of the first of the first `n` entries with id `id`, or -1.
pub open spec fn entry_index(e: Seq<EntryView>, id: u64, n: int) -> int
    decreases n,
{
    if n <= 0 {
        -1
    } else {
        let k = entry_index(e, id, n - 1);
        if k >= 0 {
            k
        } else if e[n - 1].0 == id {
            n - 1
        } else {
            -1
        }
    }
}

/// The entries after route `route` keeps the matched stop `m`: a new
/// entry for a first sighting, else the route added to the stop's routes
/// unless already there.
pub open spec fn add_stop(e: Seq<EntryView>, m: MatchedStop, route: Seq<char>) -> Seq<EntryView> {
    let k = entry_index(e, m.bstopid, e.len() as int);
    if k >= 0 {
        let x = e[k];
        e.update(k, (x.0, if x.1.contains(route) { x.1 } else { x.1.push(route) }, x.2, x.3, x.4))
    } else {
        e.push((m.bstopid, seq![route], method_text(m.via_substring, m.candidate_count), confidence_text(m.confidence), m.candidate_count))
    }
}

/// The entries after route `route` keeps its first `n` in-scope matched
/// stops.
pub open spec fn add_route_stops(e: Seq<EntryView>, m: Seq<MatchedStop>, in_scope: Seq<bool>, route: Seq<char>, n: int) -> Seq<EntryView>
    decreases n,
{
    if n <= 0 {
        e
    } else {
        let prev = add_route_stops(e, m, in_scope, route, n - 1);
        if in_scope[n - 1] {
            add_stop(prev, m[n - 1], route)
        } else {
            prev
        }
    }
}

/// The stop entries after the first `n` routes (only qualifying routes
/// contribute).
pub open spec fn doc_entries(os: Seq<RouteOutcome>, n: int) -> Seq<EntryView>
    decreases n,
{
    if n <= 0 {
        Seq::empty()
    } else {
        let prev = doc_entries(os, n - 1);
        let o = os[n - 1];
        if qualifies(o) {
            add_route_stops(prev, o.matched@, o.in_scope@, o.route_no@, o.matched@.len() as int)
        } else {
            prev
        }
    }
}

/// The route entries (number and kept stop ids) of the qualifying routes
/// among the first `n`.
pub open spec fn doc_routes(os: Seq<RouteOutcome>, n: int) -> Seq<(Seq<char>, Seq<Seq<char>>)>
    decreases n,
{
    if n <= 0 {
        Seq::empty()
    } else {
        let o = os[n - 1];
        doc_routes(os, n - 1) + if qualifies(o) {
            seq![(o.route_no@, kept_ids(o.matched@, o.in_scope@, o.matched@.len() as int))]
        } else {
            Seq::empty()
        }
    }
}

/// The unplaced entries of the qualifying routes among the first `n`.
pub open spec fn doc_unplaced(os: Seq<RouteOutcome>, n: int) -> Seq<(Seq<char>, u32, Seq<char>, Seq<char>, Seq<char>)>
    decreases n,
{
    if n <= 0 {
        Seq::empty()
    } else {
        let o = os[n - 1];
        doc_unplaced(os, n - 1) + if qualifies(o) {
            o.unplaced@.map_values(|u: UnplacedStop| (o.route_no@, u.seq, u.stop_code@, u.stop_name@, reason_text(u.reason)))
        } else {
            Seq::empty()
        }
    }
}

/// The reports of the qualifying routes among the first `n`.
pub open spec fn doc_reports(os: Seq<RouteOutcome>, n: int) -> Seq<(Seq<char>, usize, int, int, int, int, usize, int, int)>
    decreases n,
{
    if n <= 0 {
        Seq::empty()
    } else {
        let o = os[n - 1];
        doc_reports(os, n - 1) + if qualifies(o) {
            seq![report_of(o)]
        } else {
            Seq::empty()
        }
    }
}

/// Index of the first of the first `n` stops with id `id`, or -1.
pub open spec fn stop_index(stops: Seq<StopInfo>, id: u64, n: int) -> int
    decreases n,
{
    if n <= 0 {
        -1
    } else {
        let k = stop_index(stops, id, n - 1);
        if k >= 0 {
            k
        } else if stops[n - 1].bstopid == id {
            n - 1
        } else {
            -1
        }
    }
}

/// A stop entry's fields: id text, name, position, routes, method,
/// confidence, candidates.
pub open spec fn entry_view(e: StopEntry) -> (Seq<char>, Seq<char>, (i32, i32), Seq<Seq<char>>, Seq<char>, Seq<char>, usize) {
    (
        e.spec_stop_id(),
        e.spec_name(),
        e.spec_pos(),
        e.spec_routes(),
        e.spec_match().0,
        e.spec_match().1,
        e.spec_match().2,
    )
}

/// The stop entries being collected, one column per field.
struct Entries {
    ids: Vec<u64>,
    routes: Vec<Vec<String>>,
    methods: Vec<&'static str>,
    confs: Vec<&'static str>,
    cands: Vec<usize>,
}

impl Entries {
    spec fn wf(&self) -> bool {
        &&& self.routes@.len() == self.ids@.len()
        &&& self.methods@.len() == self.ids@.len()
        &&& self.confs@.len() == self.ids@.len()
        &&& self.cands@.len() == self.ids@.len()
    }

    spec fn view(&self) -> Seq<EntryView> {
        Seq::new(
            self.ids@.len(),
            |k: int|
                (
                    self.ids@[k],
                    self.routes@[k]@.map_values(|r: String| r@),
                    self.methods@[k]@,
                    self.confs@[k]@,
                    self.cands@[k],
                ),
        )
    }

    fn add(&mut self, m: &MatchedStop, route: &String)
        requires
            old(self).wf(),
        ensures
            final(self).wf(),
            final(self).view() == add_stop(old(self).view(), *m, route@),
    {
        let ghost e = self.view();
        let mut k: usize = 0;
        while k < self.ids.len() && self.ids[k] != m.bstopid
            invariant
                self.wf(),
                e == self.view(),
                k <= self.ids@.len(),
                entry_index(e, m.bstopid, k as int) == -1,
            decreases self.ids.len() - k,
        {
            k += 1;
        }
        proof {
            lemma_entry_index_found(e, m.bstopid, k as int);
        }
        if k < self.ids.len() {
            let mut present = false;
            let mut j: usize = 0;
            while j < self.routes[k].len() && !present
                invariant
                    self.wf(),
                    e == self.view(),
                    k < self.ids@.len(),
                    j <= self.routes@[k as int]@.len(),
                    present ==> e[k as int].1.contains(route@),
                    !present ==> forall|q: int| 0 <= q < j ==> e[k as int].1[q] != route@,
                decreases self.routes@[k as int]@.len() - j + (if present { 0int } else { 1int }),
            {
                if crate::text::str_eq(self.routes[k][j].as_str(), route.as_str()) {
                    present = true;
                    assert(e[k as int].1[j as int] == route@);
                }
                j += 1;
            }
            if !present {
                let ghost old_routes = self.routes@;
                let mut rs = self.routes.remove(k);
                let ghost rs0 = rs@;
                let rc = route.clone();
                rs.push(rc);
                assert(rs@.map_values(|r: String| r@) =~= rs0.map_values(|r: String| r@).push(route@));
                let ghost rs1 = rs;
                self.routes.insert(k, rs);
                assert(self.routes@ =~= old_routes.update(k as int, rs1));
                assert(self.view() =~= e.update(k as int, (e[k as int].0, e[k as int].1.push(route@), e[k as int].2, e[k as int].3, e[k as int].4)));
            } else {
                assert(self.view() =~= e.update(k as int, e[k as int]));
            }
        } else {
            self.ids.push(m.bstopid);
            let mut rs: Vec<String> = Vec::new();
            let rc = route.clone();
            rs.push(rc);
            assert(rs@.map_values(|r: String| r@) =~= seq![route@]);
            self.routes.push(rs);
            self.methods.push(match_method(m.via_substring, m.candidate_count));
            self.confs.push(confidence_str(m.confidence));
            self.cands.push(m.candidate_count);
            assert(self.view() =~= e.push((m.bstopid, seq![route@], method_text(m.via_substring, m.candidate_count), confidence_text(m.confidence), m.candidate_count)));
        }
    }
}

proof fn lemma_entry_index_bounds(e: Seq<EntryView>, id: u64, n: int)
    requires
        0 <= n <= e.len(),
    ensures
        -1 <= entry_index(e, id, n) < n,
        entry_index(e, id, n) >= 0 ==> e[entry_index(e, id, n)].0 == id,
    decreases n,
{
    if n > 0 {
        lemma_entry_index_bounds(e, id, n - 1);
    }
}

proof fn lemma_stop_index_bounds(s: Seq<StopInfo>, id: u64, n: int)
    requires
        0 <= n <= s.len(),
    ensures
        -1 <= stop_index(s, id, n) < n,
        stop_index(s, id, n) >= 0 ==> s[stop_index(s, id, n)].bstopid == id,
    decreases n,
{
    if n > 0 {
        lemma_stop_index_bounds(s, id, n - 1);
    }
}

proof fn lemma_add_stop_ids(e: Seq<EntryView>, m: MatchedStop, route: Seq<char>)
    ensures
        add_stop(e, m, route).len() >= e.len(),
        forall|q: int| 0 <= q < e.len() ==> (#[trigger] add_stop(e, m, route)[q]).0 == e[q].0,
        forall|q: int| e.len() <= q < add_stop(e, m, route).len() ==> (#[trigger] add_stop(e, m, route)[q]).0 == m.bstopid,
{
    lemma_entry_index_bounds(e, m.bstopid, e.len() as int);
}

proof fn lemma_entry_index_found(e: Seq<EntryView>, id: u64, k: int)
    requires
        0 <= k <= e.len(),
        entry_index(e, id, k) == -1,
        k == e.len() || e[k].0 == id,
    ensures
        entry_index(e, id, e.len() as int) == (if k < e.len() { k } else { -1 }),
{
    if k < e.len() {
        lemma_entry_index_stable(e, id, k + 1, e.len() as int);
    }
}

proof fn lemma_entry_index_stable(e: Seq<EntryView>, id: u64, a: int, b: int)
    requires
        0 <= a <= b <= e.len(),
        entry_index(e, id, a) >= 0,
    ensures
        entry_index(e, id, b) == entry_index(e, id, a),
    decreases b - a,
{
    if b > a {
        lemma_entry_index_stable(e, id, a, b - 1);
    }
}

fn stop_lookup(stops: &[StopInfo], id: u64) -> (r: usize)
    requires
        stop_index(stops@, id, stops@.len() as int) >= 0,
    ensures
        r == stop_index(stops@, id, stops@.len() as int),
{
    let mut k: usize = 0;
    while k < stops.len() && stops[k].bstopid != id
        invariant
            k <= stops@.len(),
            stop_index(stops@, id, k as int) == -1,
            stop_index(stops@, id, stops@.len() as int) >= 0,
        decreases stops.len() - k,
    {
        k += 1;
    }
    proof {
        if k == stops.len() {
            assert(false);
        }
        lemma_stop_index_stable(stops@, id, k + 1, stops@.len() as int);
    }
    k
}

proof fn lemma_stop_index_stable(s: Seq<StopInfo>, id: u64, a: int, b: int)
    requires
        0 <= a <= b <= s.len(),
        stop_index(s, id, a) >= 0,
    ensures
        stop_index(s, id, b) == stop_index(s, id, a),
    decreases b - a,
{
    if b > a {
        lemma_stop_index_stable(s, id, a, b - 1);
    }
}

/// `a` comes before `b` in the order of route numbers: character by
/// character by code point, a proper prefix first (the order `String`
/// compares by, since UTF-8 keeps code-point order).
pub open spec fn chars_lt(a: Seq<char>, b: Seq<char>) -> bool
    decreases a.len(),
{
    if b.len() == 0 {
        false
    } else if a.len() == 0 {
        true
    } else if a[0] != b[0] {
        (a[0] as u32) < (b[0] as u32)
    } else {
        chars_lt(a.drop_first(), b.drop_first())
    }
}

/// The route numbers of `os` strictly ascend.
pub open spec fn ascending_routes(os: Seq<RouteOutcome>) -> bool {
    forall|i: int, j: int| 0 <= i < j < os.len() ==> chars_lt(#[trigger] os[i].route_no@, #[trigger] os[j].route_no@)
}

/// `names` strictly ascend.
pub open spec fn ascending_names(names: Seq<Seq<char>>) -> bool {
    forall|a: int, b: int| 0 <= a < b < names.len() ==> chars_lt(#[trigger] names[a], #[trigger] names[b])
}

proof fn lemma_chars_lt_irreflexive(a: Seq<char>)
    ensures
        !chars_lt(a, a),
    decreases a.len(),
{
    if a.len() > 0 {
        lemma_chars_lt_irreflexive(a.drop_first());
    }
}

/// `x` is the route number of one of the first `n` outcomes.
pub open spec fn from_routes(x: Seq<char>, os: Seq<RouteOutcome>, n: int) -> bool {
    exists|q: int| 0 <= q < n && x == (#[trigger] os[q]).route_no@
}

/// Every entry's routes are route numbers of the first `n` outcomes, in
/// strictly ascending order.
pub open spec fn entries_ok(e: Seq<EntryView>, os: Seq<RouteOutcome>, n: int) -> bool {
    forall|k: int|
        0 <= k < e.len() ==> ascending_names((#[trigger] e[k]).1) && (forall|a: int|
            0 <= a < e[k].1.len() ==> from_routes(#[trigger] e[k].1[a], os, n))
}

proof fn lemma_add_stop_ok(e: Seq<EntryView>, m: MatchedStop, os: Seq<RouteOutcome>, r: int)
    requires
        0 <= r < os.len(),
        ascending_routes(os),
        entries_ok(e, os, r + 1),
    ensures
        entries_ok(add_stop(e, m, os[r].route_no@), os, r + 1),
{
    let route = os[r].route_no@;
    lemma_entry_index(e, m.bstopid, e.len() as int);
    let k = entry_index(e, m.bstopid, e.len() as int);
    let a2 = add_stop(e, m, route);
    if k >= 0 {
        let x = e[k];
        if !x.1.contains(route) {
            let l = x.1.push(route);
            assert(a2 == e.update(k, (x.0, l, x.2, x.3, x.4)));
            assert forall|a: int| 0 <= a < x.1.len() implies chars_lt(#[trigger] l[a], route) by {
                assert(l[a] == x.1[a]);
                assert(from_routes(x.1[a], os, r + 1));
                let q = choose|q: int| 0 <= q < r + 1 && x.1[a] == (#[trigger] os[q]).route_no@;
                if q == r {
                    assert(x.1.contains(route));
                } else {
                    assert(chars_lt(os[q].route_no@, os[r].route_no@));
                }
            }
            assert(ascending_names(l)) by {
                assert forall|a: int, b: int| 0 <= a < b < l.len() implies chars_lt(#[trigger] l[a], #[trigger] l[b]) by {
                    if b < x.1.len() {
                        assert(l[a] == x.1[a] && l[b] == x.1[b]);
                    } else {
                        assert(l[b] == route);
                    }
                }
            }
            assert forall|a: int| 0 <= a < l.len() implies from_routes(#[trigger] l[a], os, r + 1) by {
                if a < x.1.len() {
                    assert(l[a] == x.1[a]);
                } else {
                    assert(l[a] == os[r].route_no@);
                }
            }
            assert forall|j: int| 0 <= j < a2.len() implies ascending_names((#[trigger] a2[j]).1) && (forall|a: int|
                0 <= a < a2[j].1.len() ==> from_routes(#[trigger] a2[j].1[a], os, r + 1)) by {
                if j != k {
                    assert(a2[j] == e[j]);
                }
            }
        }
    } else {
        let fresh: EntryView = (m.bstopid, seq![route], method_text(m.via_substring, m.candidate_count), confidence_text(m.confidence), m.candidate_count);
        assert(a2 == e.push(fresh));
        assert forall|j: int| 0 <= j < a2.len() implies ascending_names((#[trigger] a2[j]).1) && (forall|a: int|
            0 <= a < a2[j].1.len() ==> from_routes(#[trigger] a2[j].1[a], os, r + 1)) by {
            if j < e.len() {
                assert(a2[j] == e[j]);
            } else {
                assert(a2[j].1 == seq![route]);
                assert forall|a: int| 0 <= a < a2[j].1.len() implies from_routes(#[trigger] a2[j].1[a], os, r + 1) by {
                    assert(a2[j].1[a] == os[r].route_no@);
                }
            }
        }
    }
}

proof fn lemma_add_route_stops_ok(e: Seq<EntryView>, m: Seq<MatchedStop>, in_scope: Seq<bool>, os: Seq<RouteOutcome>, r: int, n: int)
    requires
        0 <= r < os.len(),
        ascending_routes(os),
        entries_ok(e, os, r + 1),
    ensures
        entries_ok(add_route_stops(e, m, in_scope, os[r].route_no@, n), os, r + 1),
    decreases n,
{
    if n > 0 {
        lemma_add_route_stops_ok(e, m, in_scope, os, r, n - 1);
        if in_scope[n - 1] {
            lemma_add_stop_ok(add_route_stops(e, m, in_scope, os[r].route_no@, n - 1), m[n - 1], os, r);
        }
    }
}

proof fn lemma_entries_ok_grow(e: Seq<EntryView>, os: Seq<RouteOutcome>, n: int, n2: int)
    requires
        n <= n2,
        entries_ok(e, os, n),
    ensures
        entries_ok(e, os, n2),
{
    assert forall|k: int| 0 <= k < e.len() implies ascending_names((#[trigger] e[k]).1) && (forall|a: int|
        0 <= a < e[k].1.len() ==> from_routes(#[trigger] e[k].1[a], os, n2)) by {
        assert forall|a: int| 0 <= a < e[k].1.len() implies from_routes(#[trigger] e[k].1[a], os, n2) by {
            assert(from_routes(e[k].1[a], os, n));
            let q = choose|q: int| 0 <= q < n && e[k].1[a] == (#[trigger] os[q]).route_no@;
            assert(0 <= q < n2);
        }
    }
}

proof fn lemma_doc_entries_ok(os: Seq<RouteOutcome>, n: int)
    requires
        0 <= n <= os.len(),
        ascending_routes(os),
    ensures
        entries_ok(doc_entries(os, n), os, n),
    decreases n,
{
    if n > 0 {
        lemma_doc_entries_ok(os, n - 1);
        let prev = doc_entries(os, n - 1);
        lemma_entries_ok_grow(prev, os, n - 1, n);
        let o = os[n - 1];
        if qualifies(o) {
            lemma_add_route_stops_ok(prev, o.matched@, o.in_scope@, os, n - 1, o.matched@.len() as int);
        }
    }
}

/// The route numbers of the kept routes are route numbers of the first `n`
/// outcomes, in strictly ascending order, and the reports name the same
/// routes in the same order.
proof fn lemma_doc_routes_ascending(os: Seq<RouteOutcome>, n: int)
    requires
        0 <= n <= os.len(),
        ascending_routes(os),
    ensures
        doc_routes(os, n).len() == doc_reports(os, n).len(),
        forall|t: int| 0 <= t < doc_routes(os, n).len() ==> (#[trigger] doc_routes(os, n)[t]).0 == doc_reports(os, n)[t].0,
        forall|t: int| 0 <= t < doc_routes(os, n).len() ==> from_routes((#[trigger] doc_routes(os, n)[t]).0, os, n),
        forall|a: int, b: int|
            0 <= a < b < doc_routes(os, n).len() ==> chars_lt((#[trigger] doc_routes(os, n)[a]).0, (#[trigger] doc_routes(os, n)[b]).0),
    decreases n,
{
    if n > 0 {
        lemma_doc_routes_ascending(os, n - 1);
        let p = doc_routes(os, n - 1);
        let pr = doc_reports(os, n - 1);
        let d = doc_routes(os, n);
        let o = os[n - 1];
        assert forall|t: int| 0 <= t < p.len() implies from_routes((#[trigger] p[t]).0, os, n) by {
            assert(from_routes(p[t].0, os, n - 1));
            let q = choose|q: int| 0 <= q < n - 1 && p[t].0 == (#[trigger] os[q]).route_no@;
            assert(0 <= q < n);
        }
        if qualifies(o) {
            assert(d == p.push((o.route_no@, kept_ids(o.matched@, o.in_scope@, o.matched@.len() as int))));
            assert(doc_reports(os, n) == pr.push(report_of(o)));
            assert forall|t: int| 0 <= t < d.len() implies from_routes((#[trigger] d[t]).0, os, n) by {
                if t < p.len() {
                    assert(d[t] == p[t]);
                } else {
                    assert(d[t].0 == os[n - 1].route_no@);
                }
            }
            assert forall|a: int, b: int| 0 <= a < b < d.len() implies chars_lt((#[trigger] d[a]).0, (#[trigger] d[b]).0) by {
                if b < p.len() {
                    assert(d[a] == p[a] && d[b] == p[b]);
                } else {
                    assert(d[a] == p[a]);
                    assert(from_routes(p[a].0, os, n - 1));
                    let q = choose|q: int| 0 <= q < n - 1 && p[a].0 == (#[trigger] os[q]).route_no@;
                    assert(chars_lt(os[q].route_no@, os[n - 1].route_no@));
                }
            }
            assert forall|t: int| 0 <= t < d.len() implies (#[trigger] d[t]).0 == doc_reports(os, n)[t].0 by {
                if t < p.len() {
                    assert(d[t] == p[t]);
                    assert(doc_reports(os, n)[t] == pr[t]);
                }
            }
        } else {
            assert(d =~= p);
            assert(doc_reports(os, n) =~= pr);
        }
    }
}

/// Builds the stop document and reports from every route's outcome, the
/// routes given in ascending order of route number: only routes that reach
/// the scope (see [`qualifies`]) are kept, in that order, each with no road
/// links yet and its in-scope matched stops in route order; each stop any
/// kept route keeps gets one entry (first sighting order) with the routes
/// through it in ascending order, its first sighting's match method, and
/// no height or shelter yet; the kept routes' unplaced stops and reports
/// follow, the reports in the order of the kept routes.
pub fn build_stops_document(outcomes: &[RouteOutcome], stops: &[StopInfo]) -> (r: (StopsDocument, Vec<RouteReport>))
    requires
        ascending_routes(outcomes@),
        forall|i: int| 0 <= i < outcomes@.len() ==> (#[trigger] outcomes@[i]).in_scope@.len() == outcomes@[i].matched@.len(),
        forall|i: int, j: int|
            0 <= i < outcomes@.len() && 0 <= j < outcomes@[i].matched@.len() && (#[trigger] outcomes@[i].in_scope@[j])
                ==> stop_index(stops@, outcomes@[i].matched@[j].bstopid, stops@.len() as int) >= 0,
    ensures
        r.0.spec_routes() == doc_routes(outcomes@, outcomes@.len() as int),
        r.0.spec_unplaced() == doc_unplaced(outcomes@, outcomes@.len() as int),
        r.1@.map_values(|x: RouteReport| report_view(x)) == doc_reports(outcomes@, outcomes@.len() as int),
        r.0.spec_stops().len() == doc_entries(outcomes@, outcomes@.len() as int).len(),
        forall|k: int|
            0 <= k < r.0.spec_stops().len() ==> {
                let e = doc_entries(outcomes@, outcomes@.len() as int)[k];
                let st = stops@[stop_index(stops@, e.0, stops@.len() as int)];
                entry_view(#[trigger] r.0.spec_stops()[k]) == (dec_digits(e.0 as nat), st.name@, (st.x, st.z), e.1, e.2, e.3, e.4)
            },
        forall|k: int|
            0 <= k < r.0.spec_stops().len() ==> (#[trigger] r.0.spec_stops()[k]).spec_y2() is None
                && r.0.spec_stops()[k].spec_shelter() is None && ascending_names(r.0.spec_stops()[k].spec_routes()),
        r.0.spec_route_links().len() == r.0.spec_routes().len(),
        forall|q: int| 0 <= q < r.0.spec_route_links().len() ==> (#[trigger] r.0.spec_route_links()[q]).len() == 0,
        forall|a: int, b: int|
            0 <= a < b < r.0.spec_routes().len() ==> chars_lt((#[trigger] r.0.spec_routes()[a]).0, (#[trigger] r.0.spec_routes()[b]).0),
        r.1@.len() == r.0.spec_routes().len(),
        forall|t: int| 0 <= t < r.1@.len() ==> (#[trigger] r.1@[t]).route_no@ == r.0.spec_routes()[t].0,
{
    let mut entries = Entries { ids: Vec::new(), routes: Vec::new(), methods: Vec::new(), confs: Vec::new(), cands: Vec::new() };
    let mut route_entries: Vec<RouteEntry> = Vec::new();
    let mut unplaced: Vec<UnplacedEntry> = Vec::new();
    let mut reports: Vec<RouteReport> = Vec::new();
    assert(entries.view() =~= doc_entries(outcomes@, 0));
    let mut i: usize = 0;
    while i < outcomes.len()
        invariant
            i <= outcomes@.len(),
            forall|q: int| 0 <= q < outcomes@.len() ==> (#[trigger] outcomes@[q]).in_scope@.len() == outcomes@[q].matched@.len(),
            entries.wf(),
            entries.view() == doc_entries(outcomes@, i as int),
            forall|i: int, j: int|
                0 <= i < outcomes@.len() && 0 <= j < outcomes@[i].matched@.len() && (#[trigger] outcomes@[i].in_scope@[j])
                    ==> stop_index(stops@, outcomes@[i].matched@[j].bstopid, stops@.len() as int) >= 0,
            forall|q: int| 0 <= q < entries.view().len() ==> stop_index(stops@, (#[trigger] entries.view()[q]).0, stops@.len() as int) >= 0,
            route_entries@.map_values(|r: RouteEntry| (r.route_id@, r.stops@.map_values(|s: String| s@))) == doc_routes(outcomes@, i as int),
            forall|q: int| 0 <= q < route_entries@.len() ==> (#[trigger] route_entries@[q]).links@.len() == 0,
            unplaced@.map_values(|u: UnplacedEntry| (u.route_id@, u.seq, u.stop_code@, u.stop_name@, u.reason@)) == doc_unplaced(outcomes@, i as int),
            reports@.map_values(|x: RouteReport| report_view(x)) == doc_reports(outcomes@, i as int),
        decreases outcomes.len() - i,
    {
        let o = &outcomes[i];
        let ghost e0 = entries.view();
        let ghost r0 = route_entries@.map_values(|r: RouteEntry| (r.route_id@, r.stops@.map_values(|s: String| s@)));
        let ghost u0 = unplaced@.map_values(|u: UnplacedEntry| (u.route_id@, u.seq, u.stop_code@, u.stop_name@, u.reason@));
        let ghost p0 = reports@.map_values(|x: RouteReport| report_view(x));
        if route_qualifies(o) {
            let mut kept: Vec<String> = Vec::new();
            let mut j: usize = 0;
            while j < o.matched.len()
                invariant
                    j <= o.matched@.len(),
                    o.in_scope@.len() == o.matched@.len(),
                    entries.wf(),
                    entries.view() == add_route_stops(e0, o.matched@, o.in_scope@, o.route_no@, j as int),
                    o == outcomes@[i as int],
                    i < outcomes@.len(),
                    forall|i: int, j: int|
                        0 <= i < outcomes@.len() && 0 <= j < outcomes@[i].matched@.len() && (#[trigger] outcomes@[i].in_scope@[j])
                            ==> stop_index(stops@, outcomes@[i].matched@[j].bstopid, stops@.len() as int) >= 0,
                    forall|q: int| 0 <= q < entries.view().len() ==> stop_index(stops@, (#[trigger] entries.view()[q]).0, stops@.len() as int) >= 0,
                    kept@.map_values(|s: String| s@) == kept_ids(o.matched@, o.in_scope@, j as int),
                decreases o.matched.len() - j,
            {
                if o.in_scope[j] {
                    let ghost ea = entries.view();
                    assert(outcomes@[i as int].in_scope@[j as int]);
                    entries.add(&o.matched[j], &o.route_no);
                    proof {
                        lemma_add_stop_ids(ea, o.matched@[j as int], o.route_no@);
                    }
                    assert forall|q: int| 0 <= q < entries.view().len() implies stop_index(stops@, (#[trigger] entries.view()[q]).0, stops@.len() as int) >= 0 by {
                        if q < ea.len() {
                            assert(entries.view()[q].0 == ea[q].0);
                        } else {
                            assert(entries.view()[q].0 == o.matched@[j as int].bstopid);
                        }
                    }
                    let id_text = string_from_chars(digits_of_u64(o.matched[j].bstopid).as_slice());
                    let ghost k0 = kept@.map_values(|s: String| s@);
                    kept.push(id_text);
                    assert(kept@.map_values(|s: String| s@) =~= k0.push(dec_digits(o.matched@[j as int].bstopid as nat)));
                }
                j += 1;
            }
            let rid = o.route_no.clone();
            let ghost re0 = route_entries@;
            route_entries.push(RouteEntry { route_id: rid, links: Vec::new(), stops: kept });
            assert forall|q: int| 0 <= q < route_entries@.len() implies (#[trigger] route_entries@[q]).links@.len() == 0 by {
                if q < re0.len() {
                    assert(route_entries@[q] == re0[q]);
                }
            }
            assert(route_entries@.map_values(|r: RouteEntry| (r.route_id@, r.stops@.map_values(|s: String| s@))) =~= doc_routes(outcomes@, i + 1));
            let mut k: usize = 0;
            while k < o.unplaced.len()
                invariant
                    k <= o.unplaced@.len(),
                    unplaced@.map_values(|u: UnplacedEntry| (u.route_id@, u.seq, u.stop_code@, u.stop_name@, u.reason@))
                        == u0 + o.unplaced@.take(k as int).map_values(
                        |u: UnplacedStop| (o.route_no@, u.seq, u.stop_code@, u.stop_name@, reason_text(u.reason)),
                    ),
                decreases o.unplaced.len() - k,
            {
                let u = &o.unplaced[k];
                let ghost before = unplaced@.map_values(|u: UnplacedEntry| (u.route_id@, u.seq, u.stop_code@, u.stop_name@, u.reason@));
                let ue = UnplacedEntry {
                    route_id: o.route_no.clone(),
                    seq: u.seq,
                    stop_code: u.stop_code.clone(),
                    stop_name: u.stop_name.clone(),
                    reason: reason_str(u.reason),
                };
                let ghost fv = (o.route_no@, u.seq, u.stop_code@, u.stop_name@, reason_text(u.reason));
                assert((ue.route_id@, ue.seq, ue.stop_code@, ue.stop_name@, ue.reason@) == fv);
                unplaced.push(ue);
                assert(unplaced@.map_values(|u: UnplacedEntry| (u.route_id@, u.seq, u.stop_code@, u.stop_name@, u.reason@)) =~= before.push(fv));
                assert(o.unplaced@.take(k + 1).map_values(
                    |u: UnplacedStop| (o.route_no@, u.seq, u.stop_code@, u.stop_name@, reason_text(u.reason)),
                ) =~= o.unplaced@.take(k as int).map_values(
                    |u: UnplacedStop| (o.route_no@, u.seq, u.stop_code@, u.stop_name@, reason_text(u.reason)),
                ).push(fv));
                assert(o.unplaced@.take(k + 1) =~= o.unplaced@.take(k as int).push(o.unplaced@[k as int]));
                assert(unplaced@.map_values(|u: UnplacedEntry| (u.route_id@, u.seq, u.stop_code@, u.stop_name@, u.reason@))
                    =~= u0 + o.unplaced@.take(k + 1).map_values(
                    |u: UnplacedStop| (o.route_no@, u.seq, u.stop_code@, u.stop_name@, reason_text(u.reason)),
                ));
                k += 1;
            }
            assert(o.unplaced@.take(o.unplaced@.len() as int) =~= o.unplaced@);
            assert(unplaced@.map_values(|u: UnplacedEntry| (u.route_id@, u.seq, u.stop_code@, u.stop_name@, u.reason@)) =~= doc_unplaced(outcomes@, i + 1));
            let rep = route_report(o);
            reports.push(rep);
            assert(reports@.map_values(|x: RouteReport| report_view(x)) =~= doc_reports(outcomes@, i + 1));
        } else {
            assert(route_entries@.map_values(|r: RouteEntry| (r.route_id@, r.stops@.map_values(|s: String| s@))) =~= doc_routes(outcomes@, i + 1));
            assert(unplaced@.map_values(|u: UnplacedEntry| (u.route_id@, u.seq, u.stop_code@, u.stop_name@, u.reason@)) =~= doc_unplaced(outcomes@, i + 1));
            assert(reports@.map_values(|x: RouteReport| report_view(x)) =~= doc_reports(outcomes@, i + 1));
        }
        i += 1;
    }
    let ghost ev = entries.view();
    let mut out: Vec<StopEntry> = Vec::new();
    let mut k: usize = 0;
    while k < entries.ids.len()
        invariant
            k <= entries.ids@.len(),
            entries.wf(),
            ev == entries.view(),
            ev == doc_entries(outcomes@, outcomes@.len() as int),
            forall|q: int| 0 <= q < ev.len() ==> stop_index(stops@, (#[trigger] ev[q]).0, stops@.len() as int) >= 0,
            out@.len() == k,
            forall|q: int| 0 <= q < k ==> (#[trigger] out@[q]).y2 is None && out@[q].shelter is None,
            forall|q: int|
                0 <= q < k ==> {
                    let e = ev[q];
                    let st = stops@[stop_index(stops@, e.0, stops@.len() as int)];
                    entry_view(#[trigger] out@[q]) == (dec_digits(e.0 as nat), st.name@, (st.x, st.z), e.1, e.2, e.3, e.4)
                },
        decreases entries.ids.len() - k,
    {
        let id = entries.ids[k];
        assert(ev[k as int].0 == id);
        let si = stop_lookup(stops, id);
        proof {
            lemma_stop_index_bounds(stops@, id, stops@.len() as int);
        }
        let st = &stops[si];
        let mut rs: Vec<String> = Vec::new();
        let mut q: usize = 0;
        while q < entries.routes[k].len()
            invariant
                entries.wf(),
                k < entries.ids@.len(),
                q <= entries.routes@[k as int]@.len(),
                rs@.map_values(|s: String| s@) == entries.routes@[k as int]@.take(q as int).map_values(|s: String| s@),
            decreases entries.routes@[k as int]@.len() - q,
        {
            let ghost r0 = rs@.map_values(|s: String| s@);
            let rc = entries.routes[k][q].clone();
            rs.push(rc);
            assert(rs@.map_values(|s: String| s@) =~= r0.push(entries.routes@[k as int]@[q as int]@));
            assert(entries.routes@[k as int]@.take(q + 1) =~= entries.routes@[k as int]@.take(q as int).push(entries.routes@[k as int]@[q as int]));
            assert(rs@.map_values(|s: String| s@) =~= entries.routes@[k as int]@.take(q + 1).map_values(|s: String| s@));
            q += 1;
        }
        assert(entries.routes@[k as int]@.take(q as int) =~= entries.routes@[k as int]@);
        let entry = StopEntry {
            stop_id: string_from_chars(digits_of_u64(id).as_slice()),
            name: st.name.clone(),
            pos: (st.x, st.z),
            y2: None,
            routes: rs,
            shelter: None,
            match_info: StopMatchInfo { method: entries.methods[k], confidence: entries.confs[k], candidates: entries.cands[k] },
        };
        out.push(entry);
        k += 1;
    }
    let doc = StopsDocument { stops: out, routes: route_entries, unplaced };
    proof {
        lemma_doc_entries_ok(outcomes@, outcomes@.len() as int);
        lemma_doc_routes_ascending(outcomes@, outcomes@.len() as int);
        let n = outcomes@.len() as int;
        assert(doc.spec_route_links().len() == doc.spec_routes().len());
        assert forall|q: int| 0 <= q < doc.spec_route_links().len() implies (#[trigger] doc.spec_route_links()[q]).len() == 0 by {
            assert(doc.spec_route_links()[q] == doc.routes@[q].spec_links());
        }
        assert forall|k: int| 0 <= k < doc.spec_stops().len() implies (#[trigger] doc.spec_stops()[k]).spec_y2() is None
            && doc.spec_stops()[k].spec_shelter() is None && ascending_names(doc.spec_stops()[k].spec_routes()) by {
            assert(entry_view(doc.spec_stops()[k]).3 == ev[k].1);
        }
        assert forall|t: int| 0 <= t < reports@.len() implies (#[trigger] reports@[t]).route_no@ == doc.spec_routes()[t].0 by {
            assert(reports@.map_values(|x: RouteReport| report_view(x))[t] == report_view(reports@[t]));
            assert(doc_reports(outcomes@, n)[t].0 == doc_routes(outcomes@, n)[t].0);
        }
    }
    (doc, reports)
}

/// `links` followed by `path`, each path link left out when it repeats the
/// link kept just before it.
pub open spec fn append_dedup(links: Seq<Seq<char>>, path: Seq<Seq<char>>) -> Seq<Seq<char>>
    decreases path.len(),
{
    if path.len() == 0 {
        links
    } else {
        let prev = append_dedup(links, path.drop_last());
        if prev.len() > 0 && prev.last() == path.last() {
            prev
        } else {
            prev.push(path.last())
        }
    }
}

/// Appends one hop's road links to a route's link list, skipping a link
/// that repeats the last one already listed.
pub fn append_path_links(links: &mut Vec<String>, path_links: &[String])
    ensures
        final(links)@.map_values(|l: String| l@) == append_dedup(
            old(links)@.map_values(|l: String| l@),
            path_links@.map_values(|l: String| l@),
        ),
{
    let ghost start = links@.map_values(|l: String| l@);
    let ghost path = path_links@.map_values(|l: String| l@);
    let mut i: usize = 0;
    while i < path_links.len()
        invariant
            i <= path_links@.len(),
            path == path_links@.map_values(|l: String| l@),
            links@.map_values(|l: String| l@) == append_dedup(start, path.take(i as int)),
        decreases path_links.len() - i,
    {
        let ghost before = links@.map_values(|l: String| l@);
        assert(path.take(i + 1).drop_last() =~= path.take(i as int));
        let n = links.len();
        let repeat = n > 0 && crate::text::str_eq(links[n - 1].as_str(), path_links[i].as_str());
        if !repeat {
            links.push(crate::text::string_of(path_links[i].as_str()));
            assert(links@.map_values(|l: String| l@) =~= before.push(path[i as int]));
        }
        i += 1;
    }
    assert(path.take(path_links.len() as int) =~= path);
}

/// No two entries of `e` are for the same stop, and no entry lists a route
/// twice.
pub open spec fn entries_distinct(e: Seq<EntryView>) -> bool {
    &&& forall|i: int, j: int| 0 <= i < j < e.len() ==> (#[trigger] e[i]).0 != (#[trigger] e[j]).0
    &&& forall|k: int| 0 <= k < e.len() ==> (#[trigger] e[k]).1.no_duplicates()
}

/// Some entry of `e` is for stop `id` and lists `route`.
pub open spec fn lists(e: Seq<EntryView>, id: u64, route: Seq<char>) -> bool {
    exists|k: int| 0 <= k < e.len() && (#[trigger] e[k]).0 == id && e[k].1.contains(route)
}

proof fn lemma_entry_index(e: Seq<EntryView>, id: u64, n: int)
    requires
        0 <= n <= e.len(),
    ensures
        entry_index(e, id, n) == -1 <==> forall|k: int| 0 <= k < n ==> (#[trigger] e[k]).0 != id,
        entry_index(e, id, n) >= 0 ==> 0 <= entry_index(e, id, n) < n && e[entry_index(e, id, n)].0 == id,
        entry_index(e, id, n) >= -1,
    decreases n,
{
    if n > 0 {
        lemma_entry_index(e, id, n - 1);
    }
}

proof fn lemma_add_stop(e: Seq<EntryView>, m: MatchedStop, route: Seq<char>, id: u64, other: Seq<char>)
    requires
        entries_distinct(e),
    ensures
        entries_distinct(add_stop(e, m, route)),
        lists(add_stop(e, m, route), m.bstopid, route),
        lists(e, id, other) ==> lists(add_stop(e, m, route), id, other),
{
    let n = e.len() as int;
    lemma_entry_index(e, m.bstopid, n);
    let k = entry_index(e, m.bstopid, n);
    let a = add_stop(e, m, route);
    if k >= 0 {
        let x = e[k];
        let r2 = if x.1.contains(route) { x.1 } else { x.1.push(route) };
        assert(a == e.update(k, (x.0, r2, x.2, x.3, x.4)));
        assert(r2.no_duplicates()) by {
            if !x.1.contains(route) {
                assert forall|i: int, j: int| 0 <= i < j < r2.len() implies r2[i] != r2[j] by {
                    if j == x.1.len() {
                        assert(x.1[i] == r2[i]);
                    }
                }
            }
        }
        assert(r2.contains(route)) by {
            if !x.1.contains(route) {
                assert(r2[x.1.len() as int] == route);
            }
        }
        assert(a[k].1.contains(route));
        if lists(e, id, other) {
            let j = choose|j: int| 0 <= j < e.len() && (#[trigger] e[j]).0 == id && e[j].1.contains(other);
            if j == k {
                let t = choose|t: int| 0 <= t < x.1.len() && x.1[t] == other;
                assert(r2[t] == other);
                assert(a[k].1.contains(other));
            } else {
                assert(a[j] == e[j]);
            }
        }
    } else {
        let fresh: EntryView = (m.bstopid, seq![route], method_text(m.via_substring, m.candidate_count), confidence_text(m.confidence), m.candidate_count);
        assert(a == e.push(fresh));
        assert(a[n].1[0] == route);
        assert(seq![route].no_duplicates());
        if lists(e, id, other) {
            let j = choose|j: int| 0 <= j < e.len() && (#[trigger] e[j]).0 == id && e[j].1.contains(other);
            assert(a[j] == e[j]);
        }
    }
}

proof fn lemma_add_route_stops(e: Seq<EntryView>, m: Seq<MatchedStop>, in_scope: Seq<bool>, route: Seq<char>, n: int, id: u64, other: Seq<char>)
    requires
        entries_distinct(e),
        0 <= n <= m.len(),
        n <= in_scope.len(),
    ensures
        entries_distinct(add_route_stops(e, m, in_scope, route, n)),
        forall|s: int| 0 <= s < n && #[trigger] in_scope[s] ==> lists(add_route_stops(e, m, in_scope, route, n), m[s].bstopid, route),
        lists(e, id, other) ==> lists(add_route_stops(e, m, in_scope, route, n), id, other),
    decreases n,
{
    if n > 0 {
        let prev = add_route_stops(e, m, in_scope, route, n - 1);
        lemma_add_route_stops(e, m, in_scope, route, n - 1, id, other);
        if in_scope[n - 1] {
            lemma_add_stop(prev, m[n - 1], route, id, other);
            assert forall|s: int| 0 <= s < n && #[trigger] in_scope[s] implies lists(add_route_stops(e, m, in_scope, route, n), m[s].bstopid, route) by {
                if s < n - 1 {
                    lemma_add_route_stops(e, m, in_scope, route, n - 1, m[s].bstopid, route);
                    lemma_add_stop(prev, m[n - 1], route, m[s].bstopid, route);
                }
            }
        }
    }
}

/// The stop document keeps one entry per stop: no two entries are for the
/// same stop, no entry lists a route twice, and every in-scope matched stop
/// of every kept route has the entry of its stop, listing that route.
pub proof fn lemma_one_entry_per_stop(os: Seq<RouteOutcome>)
    requires
        forall|i: int| 0 <= i < os.len() ==> (#[trigger] os[i]).in_scope@.len() == os[i].matched@.len(),
    ensures
        entries_distinct(doc_entries(os, os.len() as int)),
        forall|r: int, s: int|
            0 <= r < os.len() && qualifies(os[r]) && 0 <= s < os[r].matched@.len() && #[trigger] os[r].in_scope@[s]
                ==> lists(doc_entries(os, os.len() as int), #[trigger] os[r].matched@[s].bstopid, os[r].route_no@),
{
    lemma_doc_entries(os, os.len() as int);
}

proof fn lemma_doc_entries(os: Seq<RouteOutcome>, n: int)
    requires
        0 <= n <= os.len(),
        forall|i: int| 0 <= i < os.len() ==> (#[trigger] os[i]).in_scope@.len() == os[i].matched@.len(),
    ensures
        entries_distinct(doc_entries(os, n)),
        forall|r: int, s: int|
            0 <= r < n && qualifies(os[r]) && 0 <= s < os[r].matched@.len() && #[trigger] os[r].in_scope@[s]
                ==> lists(doc_entries(os, n), #[trigger] os[r].matched@[s].bstopid, os[r].route_no@),
    decreases n,
{
    if n > 0 {
        lemma_doc_entries(os, n - 1);
        let prev = doc_entries(os, n - 1);
        let o = os[n - 1];
        if qualifies(o) {
            let ml = o.matched@.len() as int;
            lemma_add_route_stops(prev, o.matched@, o.in_scope@, o.route_no@, ml, 0, Seq::empty());
            assert forall|r: int, s: int|
                0 <= r < n && qualifies(os[r]) && 0 <= s < os[r].matched@.len() && #[trigger] os[r].in_scope@[s] implies lists(
                doc_entries(os, n),
                #[trigger] os[r].matched@[s].bstopid,
                os[r].route_no@,
            ) by {
                if r < n - 1 {
                    lemma_add_route_stops(prev, o.matched@, o.in_scope@, o.route_no@, ml, os[r].matched@[s].bstopid, os[r].route_no@);
                }
            }
        }
    }
}

proof fn lemma_tiers_sum(m: Seq<MatchedStop>, n: int)
    requires
        0 <= n <= m.len(),
    ensures
        count_confidence(m, Confidence::High, n) + count_confidence(m, Confidence::Medium, n) + count_confidence(
            m,
            Confidence::Low,
            n,
        ) == n,
    decreases n,
{
    if n > 0 {
        lemma_tiers_sum(m, n - 1);
    }
}

proof fn lemma_flags_sum(f: Seq<bool>, n: int)
    requires
        0 <= n <= f.len(),
    ensures
        count_flags(f, true, n) + count_flags(f, false, n) == n,
    decreases n,
{
    if n > 0 {
        lemma_flags_sum(f, n - 1);
    }
}

/// A route's tallies add up: the three confidence tiers together, and the
/// kept and cut stops together, count every matched stop once; when the
/// route's matched and unplaced stops are all of its CSV stops, the tiers
/// and the unplaced count add up to the CSV stop count.
pub proof fn lemma_report_tallies(o: RouteOutcome)
    requires
        o.in_scope@.len() == o.matched@.len(),
    ensures
        report_of(o).2 + report_of(o).3 + report_of(o).4 == o.matched@.len(),
        report_of(o).7 + report_of(o).8 == o.matched@.len(),
        o.matched@.len() + o.unplaced@.len() == o.total_csv_stops ==> report_of(o).2 + report_of(o).3 + report_of(o).4
            + report_of(o).5 == report_of(o).1,
{
    lemma_tiers_sum(o.matched@, o.matched@.len() as int);
    lemma_flags_sum(o.in_scope@, o.matched@.len() as int);
}

/// `e` keeps the stop ids of `p` at their positions.
pub open spec fn keeps_ids(p: Seq<EntryView>, e: Seq<EntryView>) -> bool {
    p.len() <= e.len() && forall|k: int| 0 <= k < p.len() ==> (#[trigger] e[k]).0 == p[k].0
}

proof fn lemma_add_route_stops_keeps(e: Seq<EntryView>, m: Seq<MatchedStop>, in_scope: Seq<bool>, route: Seq<char>, n: int)
    ensures
        keeps_ids(e, add_route_stops(e, m, in_scope, route, n)),
    decreases n,
{
    if n > 0 {
        lemma_add_route_stops_keeps(e, m, in_scope, route, n - 1);
        let prev = add_route_stops(e, m, in_scope, route, n - 1);
        if in_scope[n - 1] {
            let k = entry_index(prev, m[n - 1].bstopid, prev.len() as int);
            lemma_entry_index(prev, m[n - 1].bstopid, prev.len() as int);
            let a = add_stop(prev, m[n - 1], route);
            assert(keeps_ids(prev, a));
        }
    }
}

/// The stop document's entries come in order of first sighting: the
/// entries after the first `a` routes stay, at the same positions and for
/// the same stops, among the entries after the first `b >= a` routes; a
/// later route only adds entries after them.
pub proof fn lemma_entries_in_sighting_order(os: Seq<RouteOutcome>, a: int, b: int)
    requires
        0 <= a <= b <= os.len(),
    ensures
        keeps_ids(doc_entries(os, a), doc_entries(os, b)),
    decreases b - a,
{
    if a < b {
        lemma_entries_in_sighting_order(os, a, b - 1);
        let o = os[b - 1];
        let prev = doc_entries(os, b - 1);
        if qualifies(o) {
            lemma_add_route_stops_keeps(prev, o.matched@, o.in_scope@, o.route_no@, o.matched@.len() as int);
        }
    }
}

} // verus!
