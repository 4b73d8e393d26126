//! The per-building decisions of planning: whether road overlap leaves a
//! footprint out or clips it, which detail level it is drawn at, and the
//! counts a planning run reports.

use super::{DetailLevel, KrBuildingsReport, PlannedBuilding};
use crate::bus_routes::{decode_euc_kr, euc_kr_decodable, euc_kr_decoded};
use crate::roads::network::{debug_list_of, debug_names, field_names_of, names_of};
use crate::roads::shapefile::DbfTable;
use crate::text::{dec_digits, digits_of_u64, push_chars, push_str, string_of};
use crate::text::{chars_of, parse_i32, parse_i32_spec, parse_u32, parse_u32_spec, string_from_chars, trim_chars, trim_seq};
use vstd::prelude::*;

verus! {

/// The floor count from which a building is a high-rise.
pub const HIGHRISE_FLOORS: u32 = 15;

/// Left out for road overlap: fewer than 30 % of the footprint's cells
/// stay clear of the roads.
pub open spec fn overlap_omitted(original: nat, remaining: nat) -> bool {
    10 * remaining < 3 * original
}

/// Clipped by road overlap: some cells were lost, but not enough to leave
/// the building out.
pub open spec fn overlap_clipped(original: nat, remaining: nat) -> bool {
    remaining < original && !overlap_omitted(original, remaining)
}

/// Whether a footprint of `original` cells of which `remaining` stay clear
/// of the roads is left out, and whether it is clipped.
pub fn road_overlap(original: usize, remaining: usize) -> (r: (bool, bool))
    requires
        0 < original,
        remaining <= original,
    ensures
        r.0 == overlap_omitted(original as nat, remaining as nat),
        r.1 == overlap_clipped(original as nat, remaining as nat),
{
    let omitted = (remaining as u128) * 10 < (original as u128) * 3;
    let clipped = remaining < original && !omitted;
    (omitted, clipped)
}

/// The detail level of a building: outline-and-height (`L3`) for a
/// high-rise away from every bus route, full facade (`L2`) otherwise.
pub open spec fn spec_detail_level(floors_above: u32, near_route: bool) -> DetailLevel {
    if floors_above >= HIGHRISE_FLOORS && !near_route {
        DetailLevel::L3
    } else {
        DetailLevel::L2
    }
}

/// The detail level of a building with `floors_above` floors, near a bus
/// route or not.
pub fn detail_level_for(floors_above: u32, near_route: bool) -> (d: DetailLevel)
    ensures
        d == spec_detail_level(floors_above, near_route),
{
    if floors_above >= HIGHRISE_FLOORS && !near_route {
        DetailLevel::L3
    } else {
        DetailLevel::L2
    }
}

/// How many buildings satisfy `f`.
pub open spec fn count_where(bs: Seq<PlannedBuilding>, f: spec_fn(PlannedBuilding) -> bool) -> nat
    decreases bs.len(),
{
    if bs.len() == 0 {
        0
    } else {
        count_where(bs.drop_last(), f) + if f(bs.last()) {
            1nat
        } else {
            0nat
        }
    }
}

proof fn lemma_count_where_bound(bs: Seq<PlannedBuilding>, f: spec_fn(PlannedBuilding) -> bool)
    ensures
        count_where(bs, f) <= bs.len(),
    decreases bs.len(),
{
    if bs.len() > 0 {
        lemma_count_where_bound(bs.drop_last(), f);
    }
}

pub open spec fn is_placed(b: PlannedBuilding) -> bool {
    !b.spec_omitted()
}

pub open spec fn is_omitted(b: PlannedBuilding) -> bool {
    b.spec_omitted()
}

pub open spec fn is_clipped(b: PlannedBuilding) -> bool {
    b.spec_clipped()
}

pub open spec fn is_l3(b: PlannedBuilding) -> bool {
    b.spec_detail_level() == DetailLevel::L3
}

/// The planning report: `loaded` records, and of the planned buildings
/// those placed, left out for road overlap, clipped by it, and drawn at
/// `L3`.
pub fn buildings_report(loaded: usize, buildings: &[PlannedBuilding]) -> (r: KrBuildingsReport)
    ensures
        r.loaded == loaded,
        r.placed == count_where(buildings@, |b: PlannedBuilding| is_placed(b)),
        r.omitted_road_overlap == count_where(buildings@, |b: PlannedBuilding| is_omitted(b)),
        r.clipped_road_overlap == count_where(buildings@, |b: PlannedBuilding| is_clipped(b)),
        r.l3_simplified == count_where(buildings@, |b: PlannedBuilding| is_l3(b)),
{
    let ghost fp = |b: PlannedBuilding| is_placed(b);
    let ghost fo = |b: PlannedBuilding| is_omitted(b);
    let ghost fc = |b: PlannedBuilding| is_clipped(b);
    let ghost fl = |b: PlannedBuilding| is_l3(b);
    let mut placed: usize = 0;
    let mut omitted: usize = 0;
    let mut clipped: usize = 0;
    let mut l3: usize = 0;
    let mut i: usize = 0;
    while i < buildings.len()
        invariant
            i <= buildings@.len(),
            placed == count_where(buildings@.take(i as int), fp),
            omitted == count_where(buildings@.take(i as int), fo),
            clipped == count_where(buildings@.take(i as int), fc),
            l3 == count_where(buildings@.take(i as int), fl),
            fp == (|b: PlannedBuilding| is_placed(b)),
            fo == (|b: PlannedBuilding| is_omitted(b)),
            fc == (|b: PlannedBuilding| is_clipped(b)),
            fl == (|b: PlannedBuilding| is_l3(b)),
        decreases buildings.len() - i,
    {
        let b = &buildings[i];
        assert(buildings@.take(i + 1).drop_last() =~= buildings@.take(i as int));
        proof {
            lemma_count_where_bound(buildings@.take(i as int), fp);
            lemma_count_where_bound(buildings@.take(i as int), fo);
            lemma_count_where_bound(buildings@.take(i as int), fc);
            lemma_count_where_bound(buildings@.take(i as int), fl);
        }
        if b.omitted() {
            omitted += 1;
        } else {
            placed += 1;
        }
        if b.clipped() {
            clipped += 1;
        }
        if b.detail_level() == DetailLevel::L3 {
            l3 += 1;
        }
        i += 1;
    }
    assert(buildings@.take(buildings.len() as int) =~= buildings@);
    KrBuildingsReport {
        loaded,
        placed,
        omitted_road_overlap: omitted,
        clipped_road_overlap: clipped,
        l3_simplified: l3,
    }
}

/// Every planned building is either placed or left out: the report's
/// placed and omitted counts add up to the number of planned buildings.
pub proof fn lemma_placed_and_omitted_partition(bs: Seq<PlannedBuilding>)
    ensures
        count_where(bs, |b: PlannedBuilding| is_placed(b)) + count_where(bs, |b: PlannedBuilding| is_omitted(b))
            == bs.len(),
    decreases bs.len(),
{
    if bs.len() > 0 {
        lemma_placed_and_omitted_partition(bs.drop_last());
    }
}

// ---- record fields ---------------------------------------------------------

/// The year a building stands for when its approval date is missing (any
/// year of the 1995-2009 era would do).
pub const DEFAULT_APPROVAL_YEAR: i32 = 2000;

/// The floor count a record's floor text gives: its `u32` value, or 0 when
/// it does not parse.
pub open spec fn floors_of(text: Seq<char>) -> u32 {
    match parse_u32_spec(text) {
        Some(v) => v,
        None => 0,
    }
}

/// How many UTF-8 bytes encode `c`.
pub open spec fn utf8_width(c: char) -> nat {
    if (c as u32) < 0x80 {
        1
    } else if (c as u32) < 0x800 {
        2
    } else if (c as u32) < 0x1_0000 {
        3
    } else {
        4
    }
}

/// The leading characters of `s` whose UTF-8 encoding is exactly `n`
/// bytes long (`str::get(0..n)`), or `None` when byte `n` falls inside a
/// character or past the end.
pub open spec fn byte_prefix(s: Seq<char>, n: nat) -> Option<Seq<char>>
    decreases s.len(),
{
    if n == 0 {
        Some(Seq::empty())
    } else if s.len() == 0 {
        None
    } else if utf8_width(s[0]) > n {
        None
    } else {
        match byte_prefix(s.skip(1), (n - utf8_width(s[0])) as nat) {
            Some(p) => Some(seq![s[0]] + p),
            None => None,
        }
    }
}

/// The approval year in a record's approval date text: its first four
/// bytes read as an `i32`.
pub open spec fn approval_year_of(text: Seq<char>) -> Option<i32> {
    match byte_prefix(text, 4) {
        Some(p) => parse_i32_spec(p),
        None => None,
    }
}

/// The floor count of a record's floor text (0 when it does not parse).
pub fn floors_above_of(text: &str) -> (n: u32)
    ensures
        n == floors_of(text@),
{
    let v = chars_of(text);
    match parse_u32(v.as_slice()) {
        Some(n) => n,
        None => 0,
    }
}

fn width_of(c: char) -> (w: usize)
    ensures
        w == utf8_width(c),
{
    let v = c as u32;
    if v < 0x80 {
        1
    } else if v < 0x800 {
        2
    } else if v < 0x1_0000 {
        3
    } else {
        4
    }
}

/// The approval year of a record's approval date text, if its first four
/// bytes are a whole number of characters that parse as an `i32`.
pub fn approval_year(text: &str) -> (r: Option<i32>)
    ensures
        r == approval_year_of(text@),
{
    let v = chars_of(text);
    let ghost s = v@;
    let mut used: usize = 0;
    let mut i: usize = 0;
    assert(s.skip(0) =~= s);
    proof {
        match byte_prefix(s, 4) {
            Some(p) => {
                assert(s.take(0) + p =~= p);
            },
            None => {},
        }
    }
    while used < 4
        invariant
            i <= s.len(),
            used <= 4,
            v@ == s,
            s == text@,
            byte_prefix(s, 4) == (match byte_prefix(s.skip(i as int), (4 - used) as nat) {
                Some(p) => Some(s.take(i as int) + p),
                None => None::<Seq<char>>,
            }),
        decreases 4 - used,
    {
        if i == v.len() {
            assert(s.skip(i as int).len() == 0);
            assert(byte_prefix(s.skip(i as int), (4 - used) as nat) is None);
            return None;
        }
        let w = width_of(v[i]);
        assert(s.skip(i as int)[0] == s[i as int]);
        assert(s.skip(i as int).skip(1) =~= s.skip(i + 1));
        if w > 4 - used {
            assert(byte_prefix(s.skip(i as int), (4 - used) as nat) is None);
            return None;
        }
        proof {
            let rest = byte_prefix(s.skip(i + 1), (4 - used - w) as nat);
            if let Some(p) = rest {
                assert(s.take(i as int) + (seq![s[i as int]] + p) =~= s.take(i + 1) + p);
            }
        }
        used += w;
        i += 1;
    }
    assert(byte_prefix(s.skip(i as int), 0) == Some(Seq::<char>::empty()));
    assert(s.take(i as int) + Seq::<char>::empty() =~= s.take(i as int));
    let prefix = crate::text::slice_chars(v.as_slice(), 0, i);
    assert(prefix@ =~= s.take(i as int));
    parse_i32(prefix.as_slice())
}

/// A record's 주용도 text: its raw EUC-KR bytes decoded and trimmed, empty
/// when the field is absent.
pub fn decode_main_use(raw: Option<&[u8]>) -> (s: String)
    requires
        raw matches Some(b) ==> euc_kr_decodable(b@.len()),
    ensures
        s@ == (match raw {
            Some(b) => trim_seq(euc_kr_decoded(b@).0),
            None => Seq::empty(),
        }),
{
    match raw {
        Some(bytes) => {
            let (text, _) = decode_euc_kr(bytes);
            let v = chars_of(text.as_str());
            let t = trim_chars(v.as_slice());
            string_from_chars(t.as_slice())
        },
        None => String::new(),
    }
}

/// What a building record contributes, when it has a building at all (a
/// floor count above zero): the floor count, the approval year (the
/// default when the date is missing), and whether the use and the date
/// were missing.
pub open spec fn record_fields_of(floors: Seq<char>, main_use: Seq<char>, approval: Seq<char>) -> Option<(u32, i32, bool, bool)> {
    let f = floors_of(floors);
    if f == 0 {
        None
    } else {
        let year = approval_year_of(approval);
        Some(
            (
                f,
                match year {
                    Some(y) => y,
                    None => DEFAULT_APPROVAL_YEAR,
                },
                main_use.len() == 0,
                year is None,
            ),
        )
    }
}

/// The fields of one building record from its floor text, decoded use and
/// approval date text; `None` for a record with no floors (a vacant or
/// unfilled parcel).
pub fn record_fields(floors_text: &str, main_use: &str, approval_text: &str) -> (r: Option<(u32, i32, bool, bool)>)
    ensures
        r == record_fields_of(floors_text@, main_use@, approval_text@),
{
    let floors = floors_above_of(floors_text);
    if floors == 0 {
        return None;
    }
    let year = approval_year(approval_text);
    let main_use_chars = chars_of(main_use);
    let main_use_missing = main_use_chars.len() == 0;
    Some(
        (
            floors,
            match year {
                Some(y) => y,
                None => DEFAULT_APPROVAL_YEAR,
            },
            main_use_missing,
            year.is_none(),
        ),
    )
}

/// The column count of the building register's anonymised layout
/// (`A0` through `A28`).
pub const BUILDING_COLUMNS: usize = 29;

/// What the layout check answers for a table with another column count.
pub open spec fn layout_message(names: Seq<Seq<char>>) -> Seq<char> {
    "건물통합정보 .dbf: expected 29 columns (A0..A28, this distribution's own anonymised layout), got "@
        + dec_digits(names.len()) + " ("@ + debug_list_of(names) + ")"@
}

/// Checks, before any record is read, that the building table still has
/// the 29 columns its fields are read by position from.
pub fn verify_layout(dbf: &DbfTable) -> (r: Result<(), String>)
    ensures
        dbf.spec_fields().len() == BUILDING_COLUMNS ==> r is Ok,
        dbf.spec_fields().len() != BUILDING_COLUMNS ==> (r matches Err(e) && e@ == layout_message(
            field_names_of(dbf.spec_fields()),
        )),
{
    let names = dbf.field_names();
    let ghost have = field_names_of(dbf.spec_fields());
    assert(names_of(names@) =~= have);
    if names.len() == BUILDING_COLUMNS {
        return Ok(());
    }
    let mut s = string_of("건물통합정보 .dbf: expected 29 columns (A0..A28, this distribution's own anonymised layout), got ");
    let digits = digits_of_u64(names.len() as u64);
    push_chars(&mut s, digits.as_slice());
    push_str(&mut s, " (");
    let list = debug_names(&names);
    push_str(&mut s, list.as_str());
    push_str(&mut s, ")");
    assert(s@ =~= layout_message(have));
    Err(s)
}

} // verus!
