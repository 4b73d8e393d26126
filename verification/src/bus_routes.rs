//! The per-route stop sequences of the city bus boarding/alighting CSV
//! (CP949-encoded): only the first four columns -- route number, stop
//! order, stop code, stop name -- are read; rows are grouped by route and
//! kept in stop order within each route.

use crate::text::{
    chars_of, char_index, lines_of, parse_u32, parse_u32_spec, slice_chars, split_lines, string_from_chars,
    trim_chars, trim_seq, find_char,
};
use vstd::prelude::*;

verus! {

broadcast use vstd::string::group_string_axioms;

/// The reference date of the route data: the date its file is named by.
pub const REFERENCE_DATE: &'static str = "2023-07-31";

/// One CSV row's first four columns.
pub struct RouteStop {
    pub route_no: String,
    pub seq: u32,
    pub stop_code: String,
    pub stop_name: String,
}

/// A route stop's fields, by their characters.
pub open spec fn stop_view(s: RouteStop) -> (Seq<char>, u32, Seq<char>, Seq<char>) {
    (s.route_no@, s.seq, s.stop_code@, s.stop_name@)
}

/// A copy of a route stop.
pub fn copy_stop(s: &RouteStop) -> (r: RouteStop)
    ensures
        r == *s,
{
    RouteStop {
        route_no: s.route_no.clone(),
        seq: s.seq,
        stop_code: s.stop_code.clone(),
        stop_name: s.stop_name.clone(),
    }
}

/// What `encoding_rs::EUC_KR.decode` gives for `bytes`: the text and
/// whether a malformed sequence had to be replaced.
pub uninterp spec fn euc_kr_decoded(bytes: Seq<u8>) -> (Seq<char>, bool);

/// Whether every byte is below `0x80`.
pub open spec fn all_ascii_bytes(bytes: Seq<u8>) -> bool {
    forall|i: int| 0 <= i < bytes.len() ==> #[trigger] bytes[i] < 0x80
}

/// Input lengths the EUC-KR decoder takes without panicking: its output
/// capacity bound, three bytes per input byte plus one, must fit in
/// `usize` (the crate unwraps that checked product).
pub open spec fn euc_kr_decodable(len: nat) -> bool {
    3 * (len + 1) <= usize::MAX
}

/// `encoding_rs::EUC_KR.decode` (with BOM sniffing). Its result is named
/// [`euc_kr_decoded`] of the bytes; ASCII-only input, which carries no BOM
/// and is valid as is in any ASCII-compatible encoding, comes back
/// unchanged and error-free, as the crate's source shows.  How non-ASCII
/// bytes decode is left unsaid.
#[verifier::external_body]
pub(crate) fn decode_euc_kr(bytes: &[u8]) -> (r: (String, bool))
    requires
        euc_kr_decodable(bytes@.len()),
    ensures
        (r.0@, r.1) == euc_kr_decoded(bytes@),
        all_ascii_bytes(bytes@) ==> r.0@ == bytes@.map_values(|b: u8| b as char) && !r.1,
{
    let (text, _, had_errors) = encoding_rs::EUC_KR.decode(bytes);
    (text.into_owned(), had_errors)
}

/// The first four comma-separated pieces of a line (the fourth ending at
/// the next comma, if any), when the line has at least three commas.
pub open spec fn split4(line: Seq<char>) -> Option<(Seq<char>, Seq<char>, Seq<char>, Seq<char>)> {
    let c1 = char_index(line, ',', 0);
    let c2 = char_index(line, ',', c1 + 1);
    let c3 = char_index(line, ',', c2 + 1);
    let c4 = char_index(line, ',', c3 + 1);
    if c1 >= line.len() || c2 >= line.len() || c3 >= line.len() {
        None
    } else {
        Some((line.subrange(0, c1), line.subrange(c1 + 1, c2), line.subrange(c2 + 1, c3), line.subrange(c3 + 1, c4)))
    }
}

/// One data line's row: trimmed route number, stop order, stop code and
/// stop name; `None` when a column is missing or the order is not a `u32`.
pub open spec fn parse_row(line: Seq<char>) -> Option<(Seq<char>, u32, Seq<char>, Seq<char>)> {
    match split4(line) {
        None => None,
        Some((a, b, c, d)) => match parse_u32_spec(trim_seq(b)) {
            None => None,
            Some(n) => Some((trim_seq(a), n, trim_seq(c), trim_seq(d))),
        },
    }
}

/// Whether line `i` is a data line (not the header, not empty).
pub open spec fn is_data_line(lines: Seq<Seq<char>>, i: int) -> bool {
    i != 0 && lines[i].len() > 0
}

/// The rows of the first `n` lines, in order.
pub open spec fn csv_rows(lines: Seq<Seq<char>>, n: int) -> Seq<(Seq<char>, u32, Seq<char>, Seq<char>)>
    decreases n,
{
    if n <= 0 {
        Seq::empty()
    } else {
        csv_rows(lines, n - 1) + if is_data_line(lines, n - 1) && parse_row(lines[n - 1]) is Some {
            seq![parse_row(lines[n - 1]).unwrap()]
        } else {
            Seq::empty()
        }
    }
}

/// How many of the first `n` lines are data lines that fail to parse.
pub open spec fn malformed_rows(lines: Seq<Seq<char>>, n: int) -> int
    decreases n,
{
    if n <= 0 {
        0
    } else {
        malformed_rows(lines, n - 1) + if is_data_line(lines, n - 1) && parse_row(lines[n - 1]) is None {
            1int
        } else {
            0int
        }
    }
}

/// The distinct route numbers of `rows`, in order of first appearance.
pub open spec fn route_keys(rows: Seq<(Seq<char>, u32, Seq<char>, Seq<char>)>) -> Seq<Seq<char>>
    decreases rows.len(),
{
    if rows.len() == 0 {
        Seq::empty()
    } else {
        let k = route_keys(rows.drop_last());
        if k.contains(rows.last().0) {
            k
        } else {
            k.push(rows.last().0)
        }
    }
}

/// The rows of route `key`, in order.
pub open spec fn rows_of_route(rows: Seq<(Seq<char>, u32, Seq<char>, Seq<char>)>, key: Seq<char>) -> Seq<(Seq<char>, u32, Seq<char>, Seq<char>)>
    decreases rows.len(),
{
    if rows.len() == 0 {
        Seq::empty()
    } else {
        rows_of_route(rows.drop_last(), key) + if rows.last().0 == key {
            seq![rows.last()]
        } else {
            Seq::empty()
        }
    }
}

/// The rows with stop order `v`, in order.
pub open spec fn with_seq(rows: Seq<(Seq<char>, u32, Seq<char>, Seq<char>)>, v: u32) -> Seq<(Seq<char>, u32, Seq<char>, Seq<char>)>
    decreases rows.len(),
{
    if rows.len() == 0 {
        Seq::empty()
    } else {
        with_seq(rows.drop_last(), v) + if rows.last().1 == v {
            seq![rows.last()]
        } else {
            Seq::empty()
        }
    }
}

/// `out` is `input` stably sorted by stop order: ascending, and rows with
/// the same stop order kept in their input order.
pub open spec fn stable_sorted(input: Seq<(Seq<char>, u32, Seq<char>, Seq<char>)>, out: Seq<(Seq<char>, u32, Seq<char>, Seq<char>)>) -> bool {
    &&& forall|i: int, j: int| 0 <= i <= j < out.len() ==> out[i].1 <= out[j].1
    &&& forall|v: u32| #[trigger] with_seq(out, v) == with_seq(input, v)
}

/// All route-stop rows grouped by route number, each route's stops in
/// stop order.
pub struct RouteData {
    routes: Vec<(String, Vec<RouteStop>)>,
}

impl RouteData {
    /// The routes, each its number and its stops, by their characters.
    pub closed spec fn spec_routes(&self) -> Seq<(Seq<char>, Seq<(Seq<char>, u32, Seq<char>, Seq<char>)>)> {
        self.routes@.map_values(|r: (String, Vec<RouteStop>)| (r.0@, r.1@.map_values(|s: RouteStop| stop_view(s))))
    }

    /// The reference date of the route data.
    pub fn reference_date(&self) -> (d: &'static str)
        ensures
            d@ == "2023-07-31"@,
    {
        REFERENCE_DATE
    }

    /// How many routes there are.
    pub fn route_count(&self) -> (n: usize)
        ensures
            n == self.spec_routes().len(),
    {
        self.routes.len()
    }

    /// The number of route `i` (in order of first appearance in the CSV).
    pub fn route_no(&self, i: usize) -> (r: &str)
        requires
            i < self.spec_routes().len(),
        ensures
            r@ == self.spec_routes()[i as int].0,
    {
        self.routes[i].0.as_str()
    }

    /// The stops of route `i`, in stop order.
    pub fn route_stops(&self, i: usize) -> (r: &[RouteStop])
        requires
            i < self.spec_routes().len(),
        ensures
            r@.map_values(|s: RouteStop| stop_view(s)) == self.spec_routes()[i as int].1,
    {
        self.routes[i].1.as_slice()
    }

    /// The stops of the route numbered `route_no`, if there is one.
    pub fn stops_for(&self, route_no: &str) -> (r: Option<&[RouteStop]>)
        ensures
            r is Some <==> exists|i: int| 0 <= i < self.spec_routes().len() && self.spec_routes()[i].0 == route_no@,
            r matches Some(s) ==> exists|i: int|
                0 <= i < self.spec_routes().len() && self.spec_routes()[i].0 == route_no@
                    && s@.map_values(|x: RouteStop| stop_view(x)) == self.spec_routes()[i].1,
    {
        let mut i: usize = 0;
        while i < self.routes.len()
            invariant
                i <= self.routes@.len(),
                forall|k: int| 0 <= k < i ==> self.spec_routes()[k].0 != route_no@,
            decreases self.routes.len() - i,
        {
            if crate::text::str_eq(self.routes[i].0.as_str(), route_no) {
                assert(self.spec_routes()[i as int].0 == route_no@);
                assert(self.routes@[i as int].1@.map_values(|x: RouteStop| stop_view(x)) == self.spec_routes()[i as int].1);
                return Some(self.routes[i].1.as_slice());
            }
            i += 1;
        }
        None
    }
}

/// The row of one data line (see [`parse_row`]).
pub fn parse_line(line: &[char]) -> (r: Option<RouteStop>)
    ensures
        r is None <==> parse_row(line@) is None,
        r matches Some(s) ==> parse_row(line@) == Some(stop_view(s)),
{
    let c1 = find_char(line, ',', 0);
    if c1 >= line.len() {
        return None;
    }
    let c2 = find_char(line, ',', c1 + 1);
    if c2 >= line.len() {
        return None;
    }
    let c3 = find_char(line, ',', c2 + 1);
    if c3 >= line.len() {
        return None;
    }
    let c4 = find_char(line, ',', c3 + 1);
    let a = slice_chars(line, 0, c1);
    let b = slice_chars(line, c1 + 1, c2);
    let c = slice_chars(line, c2 + 1, c3);
    let d = slice_chars(line, c3 + 1, c4);
    let bt = trim_chars(b.as_slice());
    match parse_u32(bt.as_slice()) {
        None => None,
        Some(n) => {
            let at = trim_chars(a.as_slice());
            let ct = trim_chars(c.as_slice());
            let dt = trim_chars(d.as_slice());
            Some(
                RouteStop {
                    route_no: string_from_chars(at.as_slice()),
                    seq: n,
                    stop_code: string_from_chars(ct.as_slice()),
                    stop_name: string_from_chars(dt.as_slice()),
                },
            )
        },
    }
}

/// The parsed rows of the text's lines (the first line is the header;
/// empty lines are skipped) and the count of data lines that failed to
/// parse.
fn rows_of_text(lines: &Vec<Vec<char>>, Ghost(lv): Ghost<Seq<Seq<char>>>) -> (r: (Vec<RouteStop>, usize))
    requires
        lines@.len() == lv.len(),
        forall|i: int| 0 <= i < lv.len() ==> (#[trigger] lines@[i])@ == lv[i],
    ensures
        r.0@.map_values(|s: RouteStop| stop_view(s)) == csv_rows(lv, lv.len() as int),
        r.1 == malformed_rows(lv, lv.len() as int),
{
    let mut rows: Vec<RouteStop> = Vec::new();
    let mut bad: usize = 0;
    let mut i: usize = 0;
    while i < lines.len()
        invariant
            i <= lines@.len(),
            lines@.len() == lv.len(),
            forall|k: int| 0 <= k < lv.len() ==> (#[trigger] lines@[k])@ == lv[k],
            rows@.map_values(|s: RouteStop| stop_view(s)) == csv_rows(lv, i as int),
            bad == malformed_rows(lv, i as int),
            bad <= i,
        decreases lines.len() - i,
    {
        let ghost before = rows@.map_values(|s: RouteStop| stop_view(s));
        assert(lines@[i as int]@ == lv[i as int]);
        if i != 0 && lines[i].len() > 0 {
            match parse_line(lines[i].as_slice()) {
                Some(st) => {
                    rows.push(st);
                    assert(rows@.map_values(|s: RouteStop| stop_view(s)) =~= before.push(stop_view(st)));
                },
                None => {
                    bad += 1;
                },
            }
        }
        assert(rows@.map_values(|s: RouteStop| stop_view(s)) =~= csv_rows(lv, i + 1));
        i += 1;
    }
    (rows, bad)
}

/// Every route number of the table's rows has exactly one route group: a
/// number is among the groups if and only if some row carries it, and no
/// number is grouped twice.
pub proof fn lemma_each_route_grouped_once(rows: Seq<(Seq<char>, u32, Seq<char>, Seq<char>)>, k: Seq<char>)
    ensures
        route_keys(rows).contains(k) <==> exists|i: int| 0 <= i < rows.len() && rows[i].0 == k,
        route_keys(rows).no_duplicates(),
    decreases rows.len(),
{
    if rows.len() > 0 {
        let d = rows.drop_last();
        let last = rows.last().0;
        let kd = route_keys(d);
        lemma_each_route_grouped_once(d, k);
        lemma_each_route_grouped_once(d, last);
        let kr = route_keys(rows);
        assert(kr.contains(k) <==> (kd.contains(k) || k == last)) by {
            if !kd.contains(last) {
                assert(kr == kd.push(last));
                if kd.contains(k) {
                    let j = choose|j: int| 0 <= j < kd.len() && kd[j] == k;
                    assert(kr[j] == k);
                }
                if k == last {
                    assert(kr[kd.len() as int] == k);
                }
                if kr.contains(k) {
                    let j = choose|j: int| 0 <= j < kr.len() && kr[j] == k;
                    if j < kd.len() {
                        assert(kd[j] == k);
                    }
                }
            }
        }
        assert((exists|i: int| 0 <= i < rows.len() && rows[i].0 == k) <==> ((exists|i: int| 0 <= i < d.len() && d[i].0 == k) || k == last)) by {
            if exists|i: int| 0 <= i < d.len() && d[i].0 == k {
                let i = choose|i: int| 0 <= i < d.len() && d[i].0 == k;
                assert(rows[i].0 == k);
            }
            if k == last {
                assert(rows[rows.len() - 1].0 == k);
            }
            if exists|i: int| 0 <= i < rows.len() && rows[i].0 == k {
                let i = choose|i: int| 0 <= i < rows.len() && rows[i].0 == k;
                if i < rows.len() - 1 {
                    assert(d[i].0 == k);
                }
            }
        }
        if !kd.contains(last) {
            assert forall|a: int, b: int| 0 <= a < kr.len() && 0 <= b < kr.len() && a != b implies kr[a] != kr[b] by {
                if a < kd.len() && b < kd.len() {
                } else if a == kd.len() {
                    assert(kd[b] == kr[b]);
                } else {
                    assert(kd[a] == kr[a]);
                }
            }
        }
    }
}

proof fn lemma_with_seq_concat(a: Seq<(Seq<char>, u32, Seq<char>, Seq<char>)>, b: Seq<(Seq<char>, u32, Seq<char>, Seq<char>)>, v: u32)
    ensures
        with_seq(a + b, v) == with_seq(a, v) + with_seq(b, v),
    decreases b.len(),
{
    if b.len() == 0 {
        assert(a + b =~= a);
        assert(with_seq(a, v) + with_seq(b, v) =~= with_seq(a, v));
    } else {
        assert((a + b).drop_last() =~= a + b.drop_last());
        lemma_with_seq_concat(a, b.drop_last(), v);
        assert((a + b).last() == b.last());
        assert(with_seq(a + b, v) =~= with_seq(a, v) + with_seq(b, v));
    }
}

proof fn lemma_with_seq_none(s: Seq<(Seq<char>, u32, Seq<char>, Seq<char>)>, v: u32)
    requires
        forall|i: int| 0 <= i < s.len() ==> (#[trigger] s[i]).1 != v,
    ensures
        with_seq(s, v) == Seq::<(Seq<char>, u32, Seq<char>, Seq<char>)>::empty(),
    decreases s.len(),
{
    if s.len() > 0 {
        lemma_with_seq_none(s.drop_last(), v);
        assert(with_seq(s, v) =~= Seq::<(Seq<char>, u32, Seq<char>, Seq<char>)>::empty());
    }
}

/// The stops of route `key` among `rows`, stably sorted by stop order.
fn sorted_route(rows: &Vec<RouteStop>, key: &str) -> (out: Vec<RouteStop>)
    ensures
        stable_sorted(
            rows_of_route(rows@.map_values(|s: RouteStop| stop_view(s)), key@),
            out@.map_values(|s: RouteStop| stop_view(s)),
        ),
{
    let ghost rv = rows@.map_values(|s: RouteStop| stop_view(s));
    let mut out: Vec<RouteStop> = Vec::new();
    let mut i: usize = 0;
    while i < rows.len()
        invariant
            i <= rows@.len(),
            rv == rows@.map_values(|s: RouteStop| stop_view(s)),
            stable_sorted(rows_of_route(rv.take(i as int), key@), out@.map_values(|s: RouteStop| stop_view(s))),
        decreases rows.len() - i,
    {
        let ghost ov = out@.map_values(|s: RouteStop| stop_view(s));
        assert(rv.take(i + 1).drop_last() =~= rv.take(i as int));
        assert(rv.take(i + 1).last() == rv[i as int]);
        if crate::text::str_eq(rows[i].route_no.as_str(), key) {
            let e = copy_stop(&rows[i]);
            let mut p: usize = 0;
            while p < out.len() && out[p].seq <= e.seq
                invariant
                    p <= out@.len(),
                    ov == out@.map_values(|s: RouteStop| stop_view(s)),
                    forall|k: int| 0 <= k < p ==> ov[k].1 <= e.seq,
                decreases out.len() - p,
            {
                p += 1;
            }
            let ghost ev = stop_view(e);
            out.insert(p, e);
            proof {
                let nv = out@.map_values(|s: RouteStop| stop_view(s));
                assert(nv =~= ov.take(p as int) + seq![ev] + ov.skip(p as int));
                assert forall|k: int| p <= k < ov.len() implies (#[trigger] ov[k]).1 > ev.1 by {
                    if p < ov.len() {
                        assert(ov[p as int].1 > ev.1);
                        assert(ov[p as int].1 <= ov[k].1);
                    }
                }
                assert forall|a: int, b: int| 0 <= a <= b < nv.len() implies nv[a].1 <= nv[b].1 by {
                    if a < p && b > p {
                        assert(nv[b] == ov[b - 1]);
                    } else if a == p && b > p {
                        assert(nv[b] == ov[b - 1]);
                    } else if a > p {
                        assert(nv[a] == ov[a - 1] && nv[b] == ov[b - 1]);
                    }
                }
                assert forall|v: u32| #[trigger] with_seq(nv, v) == with_seq(rows_of_route(rv.take(i + 1), key@), v) by {
                    let t = ov.take(p as int);
                    let u = ov.skip(p as int);
                    assert(ov =~= t + u);
                    lemma_with_seq_concat(t + seq![ev], u, v);
                    lemma_with_seq_concat(t, seq![ev], v);
                    lemma_with_seq_concat(t, u, v);
                    assert(rows_of_route(rv.take(i + 1), key@) == rows_of_route(rv.take(i as int), key@).push(ev));
                    lemma_with_seq_concat(rows_of_route(rv.take(i as int), key@), seq![ev], v);
                    assert(rows_of_route(rv.take(i as int), key@).push(ev) =~= rows_of_route(rv.take(i as int), key@) + seq![ev]);
                    assert(with_seq(seq![ev], v) == (if ev.1 == v { seq![ev] } else { Seq::empty() })) by {
                        assert(seq![ev].drop_last() =~= Seq::<(Seq<char>, u32, Seq<char>, Seq<char>)>::empty());
                        assert(with_seq(Seq::<(Seq<char>, u32, Seq<char>, Seq<char>)>::empty(), v) =~= Seq::<(Seq<char>, u32, Seq<char>, Seq<char>)>::empty());
                        assert(with_seq(seq![ev], v) =~= (if ev.1 == v { seq![ev] } else { Seq::empty() }));
                    }
                    if ev.1 == v {
                        assert forall|k: int| 0 <= k < u.len() implies (#[trigger] u[k]).1 != v by {
                            assert(u[k] == ov[p + k]);
                        }
                        lemma_with_seq_none(u, v);
                    }
                    assert(with_seq(nv, v) =~= with_seq(rows_of_route(rv.take(i + 1), key@), v));
                }
            }
        } else {
            assert(rows_of_route(rv.take(i + 1), key@) =~= rows_of_route(rv.take(i as int), key@));
        }
        i += 1;
    }
    assert(rv.take(rows.len() as int) =~= rv);
    out
}

/// The route data of the decoded CSV text: the routes (in order of first
/// appearance, see [`route_keys`]), each with its rows stably sorted by
/// stop order, and the count of data lines skipped as malformed.
pub fn route_data_from_text(text: &str) -> (r: (RouteData, usize))
    ensures
        ({
            let rows = csv_rows(lines_of(text@), lines_of(text@).len() as int);
            &&& r.1 == malformed_rows(lines_of(text@), lines_of(text@).len() as int)
            &&& r.0.spec_routes().len() == route_keys(rows).len()
            &&& forall|g: int|
                0 <= g < r.0.spec_routes().len() ==> (#[trigger] r.0.spec_routes()[g]).0 == route_keys(rows)[g]
                    && stable_sorted(rows_of_route(rows, route_keys(rows)[g]), r.0.spec_routes()[g].1)
        }),
{
    let chars = chars_of(text);
    let lines = split_lines(chars.as_slice());
    let ghost lv = lines_of(chars@);
    let (rows, bad) = rows_of_text(&lines, Ghost(lv));
    let ghost rv = rows@.map_values(|s: RouteStop| stop_view(s));
    let mut keys: Vec<String> = Vec::new();
    let mut i: usize = 0;
    while i < rows.len()
        invariant
            i <= rows@.len(),
            rv == rows@.map_values(|s: RouteStop| stop_view(s)),
            keys@.map_values(|k: String| k@) == route_keys(rv.take(i as int)),
        decreases rows.len() - i,
    {
        let ghost kv = keys@.map_values(|k: String| k@);
        assert(rv.take(i + 1).drop_last() =~= rv.take(i as int));
        let mut j: usize = 0;
        let mut seen = false;
        while j < keys.len() && !seen
            invariant
                j <= keys@.len(),
                i < rows@.len(),
                kv == keys@.map_values(|k: String| k@),
                seen ==> kv.contains(rows@[i as int].route_no@),
                !seen ==> forall|m: int| 0 <= m < j ==> kv[m] != rows@[i as int].route_no@,
            decreases keys.len() - j + (if seen { 0int } else { 1int }),
        {
            if crate::text::str_eq(keys[j].as_str(), rows[i].route_no.as_str()) {
                seen = true;
                assert(kv[j as int] == rows@[i as int].route_no@);
            }
            j += 1;
        }
        assert(rv.take(i + 1).last().0 == rows@[i as int].route_no@);
        if !seen {
            keys.push(rows[i].route_no.clone());
            assert(keys@.map_values(|k: String| k@) =~= kv.push(rows@[i as int].route_no@));
        }
        i += 1;
    }
    assert(rv.take(rows.len() as int) =~= rv);
    let mut routes: Vec<(String, Vec<RouteStop>)> = Vec::new();
    let mut g: usize = 0;
    while g < keys.len()
        invariant
            g <= keys@.len(),
            rv == rows@.map_values(|s: RouteStop| stop_view(s)),
            keys@.map_values(|k: String| k@) == route_keys(rv),
            routes@.len() == g,
            forall|h: int|
                0 <= h < g ==> (#[trigger] routes@[h]).0@ == route_keys(rv)[h] && stable_sorted(
                    rows_of_route(rv, route_keys(rv)[h]),
                    routes@[h].1@.map_values(|s: RouteStop| stop_view(s)),
                ),
        decreases keys.len() - g,
    {
        let key = keys[g].clone();
        assert(keys@.map_values(|k: String| k@)[g as int] == keys@[g as int]@);
        let stops = sorted_route(&rows, key.as_str());
        routes.push((key, stops));
        g += 1;
    }
    let data = RouteData { routes };
    assert forall|h: int| 0 <= h < data.spec_routes().len() implies (#[trigger] data.spec_routes()[h]).0 == route_keys(rv)[h]
        && stable_sorted(rows_of_route(rv, route_keys(rv)[h]), data.spec_routes()[h].1) by {
        assert(data.spec_routes()[h] == (data.routes@[h].0@, data.routes@[h].1@.map_values(|s: RouteStop| stop_view(s))));
    }
    (data, bad)
}


/// The route data of the CSV bytes: `Err(())` when the CP949/EUC-KR
/// decode had to replace a malformed sequence; otherwise the route data of
/// the decoded text (see [`route_data_from_text`]).
pub fn route_data_from_bytes(raw: &[u8]) -> (r: Result<(RouteData, usize), ()>)
    requires
        euc_kr_decodable(raw@.len()),
    ensures
        r is Err <==> euc_kr_decoded(raw@).1,
        r matches Ok((data, bad)) ==> {
            let rows = csv_rows(lines_of(euc_kr_decoded(raw@).0), lines_of(euc_kr_decoded(raw@).0).len() as int);
            &&& bad == malformed_rows(lines_of(euc_kr_decoded(raw@).0), lines_of(euc_kr_decoded(raw@).0).len() as int)
            &&& data.spec_routes().len() == route_keys(rows).len()
            &&& forall|g: int|
                0 <= g < data.spec_routes().len() ==> (#[trigger] data.spec_routes()[g]).0 == route_keys(rows)[g]
                    && stable_sorted(rows_of_route(rows, route_keys(rows)[g]), data.spec_routes()[g].1)
        },
{
    let (text, had_errors) = decode_euc_kr(raw);
    if had_errors {
        return Err(());
    }
    Ok(route_data_from_text(text.as_str()))
}

} // verus!
