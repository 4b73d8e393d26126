//! The per-route report table: one aligned row per route, then the short
//! list of routes that need a human look (an unplaced stop or an abnormal
//! hop).

use crate::text::{dec_digits, digits_of_u64, push_char, push_chars, push_str};
use crate::transit::RouteReport;
use vstd::prelude::*;

verus! {

broadcast use vstd::string::group_string_axioms;

/// `n` spaces.
pub open spec fn spaces(n: nat) -> Seq<char> {
    Seq::new(n, |i: int| ' ')
}

/// `s` left-aligned in a field of `w` characters (`{:<w}`).
pub open spec fn pad_right(s: Seq<char>, w: nat) -> Seq<char> {
    if s.len() >= w {
        s
    } else {
        s + spaces((w - s.len()) as nat)
    }
}

/// `s` right-aligned in a field of `w` characters (`{:>w}`).
pub open spec fn pad_left(s: Seq<char>, w: nat) -> Seq<char> {
    if s.len() >= w {
        s
    } else {
        spaces((w - s.len()) as nat) + s
    }
}

/// A count right-aligned in a field of `w` characters.
pub open spec fn num_cell(n: usize, w: nat) -> Seq<char> {
    pad_left(dec_digits(n as nat), w)
}

/// Whether a route needs a human look.
pub open spec fn is_flagged(r: RouteReport) -> bool {
    r.unplaced > 0 || r.abnormal_hop_count > 0
}

/// The table's header line.
pub open spec fn header_line() -> Seq<char> {
    pad_right("route"@, 8) + seq![' '] + pad_left("csv"@, 5) + seq![' '] + pad_left("hi"@, 4) + seq![' ']
        + pad_left("med"@, 6) + seq![' '] + pad_left("lo"@, 4) + seq![' '] + pad_left("unpl"@, 4) + seq![' ']
        + pad_left("abn.hop"@, 7) + seq![' '] + pad_left("kept"@, 5) + seq![' '] + pad_left("cut"@, 4)
}

/// One route's row: its number and counts in the header's columns, and a
/// review marker when it is flagged.
pub open spec fn report_row(r: RouteReport) -> Seq<char> {
    pad_right(r.route_no@, 8) + seq![' '] + num_cell(r.total_csv_stops, 5) + seq![' '] + num_cell(r.high, 4)
        + seq![' '] + num_cell(r.medium, 6) + seq![' '] + num_cell(r.low, 4) + seq![' '] + num_cell(
        r.unplaced,
        4,
    ) + seq![' '] + num_cell(r.abnormal_hop_count, 7) + seq![' '] + num_cell(r.kept, 5) + seq![' '] + num_cell(
        r.cut,
        4,
    ) + if is_flagged(r) {
        "  <-- review"@
    } else {
        Seq::empty()
    }
}

/// The flagged routes, in order.
pub open spec fn flagged_of(rs: Seq<RouteReport>) -> Seq<RouteReport>
    decreases rs.len(),
{
    if rs.len() == 0 {
        Seq::empty()
    } else if is_flagged(rs.last()) {
        flagged_of(rs.drop_last()).push(rs.last())
    } else {
        flagged_of(rs.drop_last())
    }
}

/// The line listing one flagged route.
pub open spec fn flagged_line(r: RouteReport) -> Seq<char> {
    "  "@ + r.route_no@ + " -- unplaced "@ + dec_digits(r.unplaced as nat) + ", abnormal hops "@ + dec_digits(
        r.abnormal_hop_count as nat,
    )
}

/// The whole report: header, one row per route, then either the all-clear
/// line or the count of flagged routes and one line for each.
pub open spec fn report_lines(rs: Seq<RouteReport>) -> Seq<Seq<char>> {
    let fl = flagged_of(rs);
    seq![header_line()] + rs.map_values(|r: RouteReport| report_row(r)) + if fl.len() == 0 {
        seq!["KR transit: no route has an unplaced stop or an abnormal hop."@]
    } else {
        seq![
            "KR transit: "@ + dec_digits(fl.len()) + " route(s) need review (unplaced stop(s) or abnormal hop(s)):"@,
        ] + fl.map_values(|r: RouteReport| flagged_line(r))
    }
}

fn push_spaces(s: &mut String, n: usize)
    ensures
        final(s)@ == old(s)@ + spaces(n as nat),
{
    let ghost start = s@;
    let mut i: usize = 0;
    while i < n
        invariant
            i <= n,
            s@ == start + spaces(i as nat),
        decreases n - i,
    {
        push_char(s, ' ');
        assert(spaces(i as nat).push(' ') =~= spaces((i + 1) as nat));
        i += 1;
    }
}

fn push_left_aligned(s: &mut String, t: &[char], w: usize)
    ensures
        final(s)@ == old(s)@ + pad_right(t@, w as nat),
{
    push_chars(s, t);
    if t.len() < w {
        push_spaces(s, w - t.len());
    }
}

fn push_right_aligned(s: &mut String, t: &[char], w: usize)
    ensures
        final(s)@ == old(s)@ + pad_left(t@, w as nat),
{
    let ghost start = s@;
    if t.len() < w {
        push_spaces(s, w - t.len());
    }
    push_chars(s, t);
    assert(s@ =~= start + pad_left(t@, w as nat));
}

fn push_num(s: &mut String, n: usize, w: usize)
    ensures
        final(s)@ == old(s)@ + num_cell(n, w as nat),
{
    let d = digits_of_u64(n as u64);
    push_right_aligned(s, d.as_slice(), w);
}

fn push_str_right(s: &mut String, t: &str, w: usize)
    ensures
        final(s)@ == old(s)@ + pad_left(t@, w as nat),
{
    let v = crate::text::chars_of(t);
    push_right_aligned(s, v.as_slice(), w);
}

fn header() -> (s: String)
    ensures
        s@ == header_line(),
{
    let mut s = String::new();
    let route = crate::text::chars_of("route");
    push_left_aligned(&mut s, route.as_slice(), 8);
    push_char(&mut s, ' ');
    push_str_right(&mut s, "csv", 5);
    push_char(&mut s, ' ');
    push_str_right(&mut s, "hi", 4);
    push_char(&mut s, ' ');
    push_str_right(&mut s, "med", 6);
    push_char(&mut s, ' ');
    push_str_right(&mut s, "lo", 4);
    push_char(&mut s, ' ');
    push_str_right(&mut s, "unpl", 4);
    push_char(&mut s, ' ');
    push_str_right(&mut s, "abn.hop", 7);
    push_char(&mut s, ' ');
    push_str_right(&mut s, "kept", 5);
    push_char(&mut s, ' ');
    push_str_right(&mut s, "cut", 4);
    assert(s@ =~= header_line());
    s
}

fn row(r: &RouteReport) -> (s: String)
    ensures
        s@ == report_row(*r),
{
    let mut s = String::new();
    let name = crate::text::chars_of(r.route_no.as_str());
    push_left_aligned(&mut s, name.as_slice(), 8);
    push_char(&mut s, ' ');
    push_num(&mut s, r.total_csv_stops, 5);
    push_char(&mut s, ' ');
    push_num(&mut s, r.high, 4);
    push_char(&mut s, ' ');
    push_num(&mut s, r.medium, 6);
    push_char(&mut s, ' ');
    push_num(&mut s, r.low, 4);
    push_char(&mut s, ' ');
    push_num(&mut s, r.unplaced, 4);
    push_char(&mut s, ' ');
    push_num(&mut s, r.abnormal_hop_count, 7);
    push_char(&mut s, ' ');
    push_num(&mut s, r.kept, 5);
    push_char(&mut s, ' ');
    push_num(&mut s, r.cut, 4);
    let ghost before = s@;
    if r.flagged() {
        push_str(&mut s, "  <-- review");
    } else {
        assert(s@ =~= before + Seq::<char>::empty());
    }
    assert(s@ =~= report_row(*r));
    s
}

fn flagged_row(r: &RouteReport) -> (s: String)
    ensures
        s@ == flagged_line(*r),
{
    let mut s = String::new();
    push_str(&mut s, "  ");
    push_str(&mut s, r.route_no.as_str());
    push_str(&mut s, " -- unplaced ");
    push_chars(&mut s, digits_of_u64(r.unplaced as u64).as_slice());
    push_str(&mut s, ", abnormal hops ");
    push_chars(&mut s, digits_of_u64(r.abnormal_hop_count as u64).as_slice());
    assert(s@ =~= flagged_line(*r));
    s
}

/// The lines of the per-route report, as [`report_lines`] lays them out.
pub fn route_report_lines(reports: &[RouteReport]) -> (lines: Vec<String>)
    ensures
        lines@.map_values(|l: String| l@) == report_lines(reports@),
{
    let mut lines: Vec<String> = Vec::new();
    lines.push(header());
    let ghost rows = reports@.map_values(|r: RouteReport| report_row(r));
    let mut flagged: Vec<&RouteReport> = Vec::new();
    let mut i: usize = 0;
    while i < reports.len()
        invariant
            i <= reports@.len(),
            rows == reports@.map_values(|r: RouteReport| report_row(r)),
            lines@.map_values(|l: String| l@) == seq![header_line()] + rows.take(i as int),
            flagged@.map_values(|r: &RouteReport| *r) == flagged_of(reports@.take(i as int)),
        decreases reports.len() - i,
    {
        let r = &reports[i];
        let ghost before = lines@.map_values(|l: String| l@);
        let ghost fbefore = flagged@.map_values(|r: &RouteReport| *r);
        lines.push(row(r));
        assert(lines@.map_values(|l: String| l@) =~= before.push(report_row(*r)));
        assert(rows.take(i + 1) =~= rows.take(i as int).push(rows[i as int]));
        assert(reports@.take(i + 1).drop_last() =~= reports@.take(i as int));
        if r.flagged() {
            flagged.push(r);
            assert(flagged@.map_values(|r: &RouteReport| *r) =~= fbefore.push(*r));
        }
        i += 1;
    }
    assert(rows.take(reports.len() as int) =~= rows);
    assert(reports@.take(reports.len() as int) =~= reports@);
    let ghost fl = flagged_of(reports@);
    let ghost table = lines@.map_values(|l: String| l@);
    if flagged.len() == 0 {
        let mut s = String::new();
        push_str(&mut s, "KR transit: no route has an unplaced stop or an abnormal hop.");
        lines.push(s);
        assert(lines@.map_values(|l: String| l@) =~= table + seq![
            "KR transit: no route has an unplaced stop or an abnormal hop."@,
        ]);
    } else {
        let mut s = String::new();
        push_str(&mut s, "KR transit: ");
        push_chars(&mut s, digits_of_u64(flagged.len() as u64).as_slice());
        push_str(&mut s, " route(s) need review (unplaced stop(s) or abnormal hop(s)):");
        lines.push(s);
        let ghost fls = fl.map_values(|r: RouteReport| flagged_line(r));
        let ghost head = lines@.map_values(|l: String| l@);
        let mut j: usize = 0;
        while j < flagged.len()
            invariant
                j <= flagged@.len(),
                flagged@.map_values(|r: &RouteReport| *r) == fl,
                fls == fl.map_values(|r: RouteReport| flagged_line(r)),
                lines@.map_values(|l: String| l@) == head + fls.take(j as int),
            decreases flagged.len() - j,
        {
            let ghost before = lines@.map_values(|l: String| l@);
            lines.push(flagged_row(flagged[j]));
            assert(flagged@.map_values(|r: &RouteReport| *r)[j as int] == *flagged@[j as int]);
            assert(lines@.map_values(|l: String| l@) =~= before.push(flagged_line(*flagged@[j as int])));
            assert(fls.take(j + 1) =~= fls.take(j as int).push(fls[j as int]));
            j += 1;
        }
        assert(fls.take(flagged.len() as int) =~= fls);
    }
    lines
}

} // verus!
