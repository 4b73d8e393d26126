//! The integer side of the network solve: the required attribute fields,
//! segment and bridge naming, the final slope-limiting pass over a
//! profile's half-block heights, and the regression checks run against the
//! placed heights (slope violations, nodes whose segments disagree on
//! their height).

use super::shapefile::DbfTable;
use super::{RoadClass, Segment};
use crate::text::{dec_padded, dec_padded_chars, push_chars, push_str, str_eq, string_of};
use vstd::prelude::*;

verus! {

broadcast use vstd::string::group_string_axioms;

/// The steepest step allowed between neighbouring profile points, in half
/// blocks.
pub const MAX_SLOPE_Y2: i32 = 2;

/// `|v|`.
pub open spec fn abs(v: int) -> int {
    if v < 0 {
        -v
    } else {
        v
    }
}

// ---- required fields ----------------------------------------------------

/// What `format!("{:?}", names)` renders for a list of names.
pub uninterp spec fn debug_list_of(names: Seq<Seq<char>>) -> Seq<char>;

/// `Debug` of a slice of names (`["A", "B"]`, each name quoted and
/// escaped). Its result is named [`debug_list_of`] of the names.
#[verifier::external_body]
fn debug_list(names: &[&str]) -> (s: String)
    ensures
        s@ == debug_list_of(names_of(names@)),
{
    format!("{:?}", names)
}

/// The texts of a list of names.
pub open spec fn names_of(v: Seq<&str>) -> Seq<Seq<char>> {
    v.map_values(|n: &str| n@)
}

/// The names of a table's fields.
pub open spec fn field_names_of(fields: Seq<(Seq<char>, int, int)>) -> Seq<Seq<char>> {
    fields.map_values(|f: (Seq<char>, int, int)| f.0)
}

/// `Debug` of a list of names (see [`debug_list_of`]).
pub(crate) fn debug_names(names: &Vec<&str>) -> (s: String)
    ensures
        s@ == debug_list_of(names_of(names@)),
{
    debug_list(names.as_slice())
}

/// The link-table fields the network is read from.
pub open spec fn required_link_fields() -> Seq<Seq<char>> {
    seq!["LINK_ID"@, "F_NODE"@, "T_NODE"@, "LANES"@, "ROAD_RANK"@, "ROAD_NAME"@]
}

/// The index of the first of `wanted` that is not among `have`, or
/// `wanted.len()` when all are there.
pub open spec fn first_missing(wanted: Seq<Seq<char>>, have: Seq<Seq<char>>) -> int
    decreases wanted.len(),
{
    if wanted.len() == 0 {
        0
    } else if !have.contains(wanted[0]) {
        0
    } else {
        1 + first_missing(wanted.drop_first(), have)
    }
}

/// The message for a table missing a required field.
pub open spec fn missing_field_message(table: Seq<char>, field: Seq<char>, have: Seq<Seq<char>>) -> Seq<char> {
    table + " is missing field "@ + field + ". Actual fields: "@ + debug_list_of(have)
}

/// What the field check answers for the two tables' field names.
pub open spec fn fields_verdict(link: Seq<Seq<char>>, node: Seq<Seq<char>>) -> Result<(), Seq<char>> {
    let lw = required_link_fields();
    let i = first_missing(lw, link);
    if i < lw.len() {
        Err(missing_field_message("MOCT_LINK.dbf"@, lw[i], link))
    } else if !node.contains("NODE_ID"@) {
        Err(missing_field_message("MOCT_NODE.dbf"@, "NODE_ID"@, node))
    } else {
        Ok(())
    }
}

pub(crate) proof fn lemma_first_missing_bounds(wanted: Seq<Seq<char>>, have: Seq<Seq<char>>)
    ensures
        0 <= first_missing(wanted, have) <= wanted.len(),
        first_missing(wanted, have) < wanted.len() ==> !have.contains(wanted[first_missing(wanted, have)]),
        forall|k: int| 0 <= k < first_missing(wanted, have) ==> have.contains(#[trigger] wanted[k]),
    decreases wanted.len(),
{
    if wanted.len() > 0 && have.contains(wanted[0]) {
        lemma_first_missing_bounds(wanted.drop_first(), have);
        assert forall|k: int| 0 <= k < first_missing(wanted, have) implies have.contains(#[trigger] wanted[k]) by {
            if k > 0 {
                assert(wanted[k] == wanted.drop_first()[k - 1]);
            }
        }
    }
}

pub(crate) fn contains_name(names: &Vec<&str>, name: &str) -> (r: bool)
    ensures
        r == names_of(names@).contains(name@),
{
    let ghost view = names_of(names@);
    let mut i: usize = 0;
    while i < names.len()
        invariant
            i <= names@.len(),
            view == names_of(names@),
            view.len() == names@.len(),
            forall|k: int| 0 <= k < i ==> view[k] != name@,
        decreases names.len() - i,
    {
        if str_eq(names[i], name) {
            assert(view[i as int] == name@);
            return true;
        }
        i += 1;
    }
    false
}

fn missing_message(table: &str, field: &str, names: &Vec<&str>) -> (s: String)
    ensures
        s@ == missing_field_message(table@, field@, names_of(names@)),
{
    let mut s = string_of(table);
    push_str(&mut s, " is missing field ");
    push_str(&mut s, field);
    push_str(&mut s, ". Actual fields: ");
    let list = debug_list(names.as_slice());
    push_str(&mut s, list.as_str());
    assert(s@ =~= missing_field_message(table@, field@, names_of(names@)));
    s
}

/// Checks, before any record is read, that the link table has every field
/// the network is built from and the node table has `NODE_ID`; the error
/// names the first missing field and lists the fields the table does have.
pub fn verify_fields(link_dbf: &DbfTable, node_dbf: &DbfTable) -> (r: Result<(), String>)
    ensures
        match fields_verdict(field_names_of(link_dbf.spec_fields()), field_names_of(node_dbf.spec_fields())) {
            Ok(()) => r is Ok,
            Err(m) => r matches Err(e) && e@ == m,
        },
{
    let link_fields = link_dbf.field_names();
    let node_fields = node_dbf.field_names();
    let ghost link = field_names_of(link_dbf.spec_fields());
    let ghost node = field_names_of(node_dbf.spec_fields());
    assert(names_of(link_fields@) =~= link);
    assert(names_of(node_fields@) =~= node);
    let required: [&str; 6] = ["LINK_ID", "F_NODE", "T_NODE", "LANES", "ROAD_RANK", "ROAD_NAME"];
    let ghost lw = required_link_fields();
    proof {
        reveal_strlit("LINK_ID");
        reveal_strlit("F_NODE");
        reveal_strlit("T_NODE");
        reveal_strlit("LANES");
        reveal_strlit("ROAD_RANK");
        reveal_strlit("ROAD_NAME");
        lemma_first_missing_bounds(lw, link);
    }
    assert(names_of(required@) =~= lw);
    let mut i: usize = 0;
    while i < 6
        invariant
            i <= 6,
            lw == required_link_fields(),
            lw.len() == 6,
            link == field_names_of(link_dbf.spec_fields()),
            node == field_names_of(node_dbf.spec_fields()),
            names_of(required@) == lw,
            link == names_of(link_fields@),
            forall|k: int| 0 <= k < i ==> link.contains(#[trigger] lw[k]),
            0 <= first_missing(lw, link) <= lw.len(),
            first_missing(lw, link) < lw.len() ==> !link.contains(lw[first_missing(lw, link)]),
            forall|k: int| 0 <= k < first_missing(lw, link) ==> link.contains(#[trigger] lw[k]),
        decreases 6 - i,
    {
        let f = required[i];
        assert(f@ == names_of(required@)[i as int]);
        if !contains_name(&link_fields, f) {
            assert(first_missing(lw, link) == i);
            assert(lw[i as int] == f@);
            assert(fields_verdict(link, node) == Err::<(), Seq<char>>(
                missing_field_message("MOCT_LINK.dbf"@, f@, link),
            ));
            return Err(missing_message("MOCT_LINK.dbf", f, &link_fields));
        }
        i += 1;
    }
    assert(first_missing(lw, link) == lw.len());
    if !contains_name(&node_fields, "NODE_ID") {
        return Err(missing_message("MOCT_NODE.dbf", "NODE_ID", &node_fields));
    }
    Ok(())
}

/// The index of the first of `required` that is not among `names`, or
/// `required.len()` when all are there.
pub(crate) fn first_missing_field(names: &Vec<&str>, required: &[&str]) -> (r: usize)
    ensures
        r == first_missing(names_of(required@), names_of(names@)),
{
    let ghost want = names_of(required@);
    let ghost have = names_of(names@);
    proof {
        lemma_first_missing_bounds(want, have);
    }
    let mut i: usize = 0;
    while i < required.len()
        invariant
            i <= required@.len(),
            want == names_of(required@),
            want.len() == required@.len(),
            have == names_of(names@),
            forall|k: int| 0 <= k < i ==> have.contains(#[trigger] want[k]),
            0 <= first_missing(want, have) <= want.len(),
            first_missing(want, have) < want.len() ==> !have.contains(want[first_missing(want, have)]),
            forall|k: int| 0 <= k < first_missing(want, have) ==> have.contains(#[trigger] want[k]),
        decreases required.len() - i,
    {
        assert(required@[i as int]@ == want[i as int]);
        if !contains_name(names, required[i]) {
            return i;
        }
        i += 1;
    }
    i
}

// ---- naming -------------------------------------------------------------

/// The id of the `i`-th ground-following segment: `s` and five digits.
pub fn segment_id(i: usize) -> (s: String)
    requires
        i <= i64::MAX,
    ensures
        s@ == seq!['s'] + dec_padded(i as int, 5),
{
    let mut s = string_of("s");
    proof {
        reveal_strlit("s");
    }
    assert(s@ =~= seq!['s']);
    push_chars(&mut s, dec_padded_chars(i as i64, 5).as_slice());
    s
}

/// The id of the `bi`-th manual bridge deck: `bridge` and two digits.
pub fn bridge_id(bi: usize) -> (s: String)
    requires
        bi <= i64::MAX,
    ensures
        s@ == "bridge"@ + dec_padded(bi as int, 2),
{
    let mut s = string_of("bridge");
    push_chars(&mut s, dec_padded_chars(bi as i64, 2).as_slice());
    s
}

/// The lane count a bridge deck of a grade is drawn with.
pub open spec fn bridge_lanes_of(class: RoadClass) -> i32 {
    match class {
        RoadClass::A | RoadClass::B => 6,
        RoadClass::C => 4,
        RoadClass::D | RoadClass::E => 2,
        RoadClass::F => 1,
    }
}

/// The lane count a bridge deck of a grade is drawn with.
pub fn bridge_lanes(class: RoadClass) -> (n: i32)
    ensures
        n == bridge_lanes_of(class),
{
    match class {
        RoadClass::A | RoadClass::B => 6,
        RoadClass::C => 4,
        RoadClass::D | RoadClass::E => 2,
        RoadClass::F => 1,
    }
}

// ---- the slope-limiting pass ---------------------------------------------

/// One left-to-right pass: each height that is more than the limit away
/// from its (already passed) predecessor is moved to exactly the limit.
pub open spec fn clamp_pass(s: Seq<i32>) -> Seq<i32>
    decreases s.len(),
{
    if s.len() <= 1 {
        s
    } else {
        let prev = clamp_pass(s.drop_last());
        let p = prev.last();
        let v = s.last();
        prev.push(
            if v - p > MAX_SLOPE_Y2 {
                (p + MAX_SLOPE_Y2) as i32
            } else if p - v > MAX_SLOPE_Y2 {
                (p - MAX_SLOPE_Y2) as i32
            } else {
                v
            },
        )
    }
}

/// The step from point `i - 1` to point `i`.
pub open spec fn step(s: Seq<i32>, i: int) -> int {
    abs(s[i] - s[i - 1])
}

/// No step between neighbours exceeds the slope limit.
pub open spec fn slope_ok(s: Seq<i32>) -> bool {
    forall|i: int| 1 <= i < s.len() ==> #[trigger] step(s, i) <= MAX_SLOPE_Y2
}

/// Heights far enough from the ends of `i32` for the pass to step by the
/// limit.
pub open spec fn heights_ok(s: Seq<i32>) -> bool {
    forall|i: int| 0 <= i < s.len() ==> -2_000_000_000 <= #[trigger] s[i] <= 2_000_000_000
}

proof fn lemma_clamp_pass(s: Seq<i32>)
    requires
        heights_ok(s),
    ensures
        clamp_pass(s).len() == s.len(),
        s.len() > 0 ==> clamp_pass(s)[0] == s[0],
        slope_ok(clamp_pass(s)),
        heights_ok(clamp_pass(s)),
        slope_ok(s) ==> clamp_pass(s) == s,
    decreases s.len(),
{
    if s.len() > 1 {
        let s1 = s.drop_last();
        lemma_clamp_pass(s1);
        let prev = clamp_pass(s1);
        let out = clamp_pass(s);
        assert(out.drop_last() =~= prev);
        assert forall|i: int| 1 <= i < out.len() implies #[trigger] step(out, i) <= MAX_SLOPE_Y2 by {
            if i < out.len() - 1 {
                assert(step(out, i) == step(prev, i));
            }
        }
        if slope_ok(s) {
            assert forall|i: int| 1 <= i < s1.len() implies #[trigger] step(s1, i) <= MAX_SLOPE_Y2 by {
                assert(step(s1, i) == step(s, i));
            }
            assert(step(s, s.len() - 1) <= MAX_SLOPE_Y2);
            assert(out =~= s);
        }
    }
}

/// One pass of the loop, in place; whether anything moved.
fn clamp_pass_exec(y2: &mut Vec<i32>) -> (changed: bool)
    requires
        heights_ok(old(y2)@),
    ensures
        final(y2)@ == clamp_pass(old(y2)@),
        changed == (final(y2)@ != old(y2)@),
{
    let ghost s = y2@;
    proof {
        lemma_clamp_pass(s);
    }
    let n = y2.len();
    if n <= 1 {
        return false;
    }
    let mut changed = false;
    let mut i: usize = 1;
    while i < n
        invariant
            1 <= i <= n,
            n == s.len(),
            y2@.len() == n,
            heights_ok(s),
            y2@.take(i as int) == clamp_pass(s.take(i as int)),
            y2@.skip(i as int) == s.skip(i as int),
            changed == (y2@.take(i as int) != s.take(i as int)),
        decreases n - i,
    {
        proof {
            lemma_clamp_pass(s.take(i as int));
            assert(s.take(i + 1).drop_last() =~= s.take(i as int));
        }
        let prev = y2[i - 1];
        let v = y2[i];
        assert(y2@.skip(i as int)[0] == y2@[i as int]);
        assert(s.skip(i as int)[0] == s[i as int]);
        assert(v == s[i as int]);
        assert(y2@.take(i as int)[i - 1] == prev);
        assert(prev == clamp_pass(s.take(i as int)).last());
        assert(heights_ok(clamp_pass(s.take(i as int))));
        assert(-2_000_000_000 <= prev <= 2_000_000_000);
        let w = if v as i64 - prev as i64 > MAX_SLOPE_Y2 as i64 {
            prev + MAX_SLOPE_Y2
        } else if prev as i64 - v as i64 > MAX_SLOPE_Y2 as i64 {
            prev - MAX_SLOPE_Y2
        } else {
            v
        };
        let ghost before = y2@;
        y2.set(i, w);
        assert(y2@.take(i + 1) =~= before.take(i as int).push(w));
        assert forall|k: int| 0 <= k < n - i - 1 implies #[trigger] y2@.skip(i + 1)[k] == s.skip(i + 1)[k] by {
            assert(before.skip(i as int)[k + 1] == s.skip(i as int)[k + 1]);
        }
        assert(y2@.skip(i + 1) =~= s.skip(i + 1));
        let ghost old_changed = changed;
        if w != v {
            changed = true;
        }
        proof {
            if w != v {
                assert(y2@.take(i + 1)[i as int] != s.take(i + 1)[i as int]);
                assert(y2@.take(i + 1) != s.take(i + 1));
            } else if old_changed {
                assert(y2@.take(i as int) =~= before.take(i as int));
                if y2@.take(i + 1) == s.take(i + 1) {
                    assert(y2@.take(i as int) =~= y2@.take(i + 1).drop_last());
                    assert(s.take(i as int) =~= s.take(i + 1).drop_last());
                }
                assert(y2@.take(i + 1) != s.take(i + 1));
            } else {
                assert(y2@.take(i + 1) =~= s.take(i + 1));
            }
        }
        i += 1;
    }
    assert(y2@ =~= y2@.take(n as int));
    assert(s =~= s.take(n as int));
    changed
}

/// The last stage of a segment profile: passes of [`clamp_pass`] until one
/// moves nothing (at most twenty), so rounding cannot leave a step above
/// the slope limit. One pass already leaves none, so the result is that
/// pass's result.
pub fn limit_profile_slopes(y2: &mut Vec<i32>)
    requires
        heights_ok(old(y2)@),
    ensures
        final(y2)@ == clamp_pass(old(y2)@),
        slope_ok(final(y2)@),
        final(y2)@.len() == old(y2)@.len(),
        old(y2)@.len() > 0 ==> final(y2)@[0] == old(y2)@[0],
{
    let ghost s = y2@;
    proof {
        lemma_clamp_pass(s);
        lemma_clamp_pass(clamp_pass(s));
    }
    let mut pass: usize = 0;
    if y2.len() == 0 {
        return;
    }
    while pass < 20
        invariant
            pass <= 20,
            pass == 0 ==> y2@ == s,
            pass > 0 ==> y2@ == clamp_pass(s),
            heights_ok(s),
            slope_ok(clamp_pass(s)),
            heights_ok(clamp_pass(s)),
            clamp_pass(clamp_pass(s)) == clamp_pass(s),
        ensures
            y2@ == clamp_pass(s),
        decreases 20 - pass,
    {
        let changed = clamp_pass_exec(y2);
        pass += 1;
        if !changed {
            break;
        }
    }
}

// ---- regression checks ----------------------------------------------------

/// How many neighbouring point pairs of `p` step by more than the limit.
pub open spec fn steep_steps(p: Seq<super::ProfilePoint>) -> nat
    decreases p.len(),
{
    if p.len() <= 1 {
        0
    } else {
        steep_steps(p.drop_last()) + if abs(p.last().y2 - p[p.len() - 2].y2) > MAX_SLOPE_Y2 {
            1nat
        } else {
            0nat
        }
    }
}

/// The steep steps of all the segments.
pub open spec fn slope_violations_of(segs: Seq<Segment>) -> nat
    decreases segs.len(),
{
    if segs.len() == 0 {
        0
    } else {
        slope_violations_of(segs.drop_last()) + steep_steps(segs.last().spec_points())
    }
}

/// The number of points of all the segments.
pub open spec fn point_total(segs: Seq<Segment>) -> nat
    decreases segs.len(),
{
    if segs.len() == 0 {
        0
    } else {
        point_total(segs.drop_last()) + segs.last().spec_points().len()
    }
}

proof fn lemma_steep_steps_bound(p: Seq<super::ProfilePoint>)
    ensures
        steep_steps(p) <= p.len(),
    decreases p.len(),
{
    if p.len() > 1 {
        lemma_steep_steps_bound(p.drop_last());
    }
}

fn steep_steps_exec(pts: &[super::ProfilePoint]) -> (c: usize)
    ensures
        c == steep_steps(pts@),
{
    if pts.len() <= 1 {
        return 0;
    }
    let ghost p = pts@;
    let mut c: usize = 0;
    let mut i: usize = 1;
    while i < pts.len()
        invariant
            1 <= i <= p.len(),
            pts@ == p,
            c == steep_steps(p.take(i as int)),
        decreases pts.len() - i,
    {
        assert(p.take(i + 1).drop_last() =~= p.take(i as int));
        proof {
            lemma_steep_steps_bound(p.take(i as int));
        }
        let d = pts[i].y2 as i64 - pts[i - 1].y2 as i64;
        if d > 2 || d < -2 {
            c += 1;
        }
        i += 1;
    }
    assert(p.take(p.len() as int) =~= p);
    c
}

/// Counts, over the placed profiles, the neighbouring steps above the
/// slope limit.
pub fn count_slope_violations(segments: &[Segment]) -> (n: usize)
    requires
        point_total(segments@) <= usize::MAX,
    ensures
        n == slope_violations_of(segments@),
{
    let mut total: usize = 0;
    let mut k: usize = 0;
    while k < segments.len()
        invariant
            k <= segments@.len(),
            point_total(segments@) <= usize::MAX,
            total == slope_violations_of(segments@.take(k as int)),
            slope_violations_of(segments@.take(k as int)) <= point_total(segments@.take(k as int)),
            point_total(segments@.take(k as int)) <= point_total(segments@),
        decreases segments.len() - k,
    {
        let pts = segments[k].points();
        let ghost p = segments@[k as int].spec_points();
        let c = steep_steps_exec(pts);
        proof {
            lemma_steep_steps_bound(p);
            assert(segments@.take(k + 1).drop_last() =~= segments@.take(k as int));
            lemma_point_total_prefix(segments@, k + 1);
        }
        total = total + c;
        k += 1;
    }
    assert(segments@.take(segments.len() as int) =~= segments@);
    total
}

proof fn lemma_point_total_prefix(segs: Seq<Segment>, k: int)
    requires
        0 <= k <= segs.len(),
    ensures
        point_total(segs.take(k)) <= point_total(segs),
    decreases segs.len(),
{
    if k < segs.len() {
        assert(segs.drop_last().take(k) =~= segs.take(k));
        lemma_point_total_prefix(segs.drop_last(), k);
    } else {
        assert(segs.take(k) =~= segs);
    }
}

/// A node's height as one end of a segment: the node id and the profile
/// height at that end.
pub open spec fn end_events(s: Segment) -> Seq<(Seq<char>, i32)> {
    if s.spec_points().len() == 0 {
        Seq::empty()
    } else {
        seq![(s.spec_f_node(), s.spec_points()[0].y2), (s.spec_t_node(), s.spec_points().last().y2)]
    }
}

/// The end events of all the segments, in order.
pub open spec fn all_end_events(segs: Seq<Segment>) -> Seq<(Seq<char>, i32)>
    decreases segs.len(),
{
    if segs.len() == 0 {
        Seq::empty()
    } else {
        all_end_events(segs.drop_last()) + end_events(segs.last())
    }
}

/// The height first recorded for `id` among `ev`.
pub open spec fn first_height(ev: Seq<(Seq<char>, i32)>, id: Seq<char>) -> Option<i32>
    decreases ev.len(),
{
    if ev.len() == 0 {
        None
    } else {
        match first_height(ev.drop_last(), id) {
            Some(h) => Some(h),
            None => if ev.last().0 == id {
                Some(ev.last().1)
            } else {
                None
            },
        }
    }
}

/// How many events give their node a height other than the one first
/// recorded for it.
pub open spec fn height_mismatches(ev: Seq<(Seq<char>, i32)>) -> nat
    decreases ev.len(),
{
    if ev.len() == 0 {
        0
    } else {
        height_mismatches(ev.drop_last()) + match first_height(ev.drop_last(), ev.last().0) {
            Some(h) => if h != ev.last().1 {
                1nat
            } else {
                0nat
            },
            None => 0nat,
        }
    }
}

proof fn lemma_height_mismatches_bound(ev: Seq<(Seq<char>, i32)>)
    ensures
        height_mismatches(ev) <= ev.len(),
    decreases ev.len(),
{
    if ev.len() > 0 {
        lemma_height_mismatches_bound(ev.drop_last());
    }
}

/// `first_height` read forwards: the height of the first event for `id`.
proof fn lemma_first_height(ev: Seq<(Seq<char>, i32)>, id: Seq<char>, k: int)
    requires
        0 <= k < ev.len(),
        ev[k].0 == id,
        forall|j: int| 0 <= j < k ==> (#[trigger] ev[j]).0 != id,
    ensures
        first_height(ev, id) == Some(ev[k].1),
    decreases ev.len(),
{
    if k < ev.len() - 1 {
        lemma_first_height(ev.drop_last(), id, k);
    } else {
        lemma_first_height_none(ev.drop_last(), id);
    }
}

proof fn lemma_first_height_none(ev: Seq<(Seq<char>, i32)>, id: Seq<char>)
    requires
        forall|j: int| 0 <= j < ev.len() ==> (#[trigger] ev[j]).0 != id,
    ensures
        first_height(ev, id) is None,
    decreases ev.len(),
{
    if ev.len() > 0 {
        lemma_first_height_none(ev.drop_last(), id);
    }
}

/// The recorded heights as plain values.
pub open spec fn seen_view(seen: Seq<(String, i32)>) -> Seq<(Seq<char>, i32)> {
    seen.map_values(|e: (String, i32)| (e.0@, e.1))
}

fn lookup_height(seen: &Vec<(String, i32)>, id: &str) -> (r: Option<i32>)
    ensures
        r == first_height(seen_view(seen@), id@),
{
    let ghost sv = seen_view(seen@);
    let mut i: usize = 0;
    while i < seen.len()
        invariant
            i <= seen@.len(),
            sv == seen_view(seen@),
            sv.len() == seen@.len(),
            forall|j: int| 0 <= j < i ==> (#[trigger] sv[j]).0 != id@,
        decreases seen.len() - i,
    {
        if str_eq(seen[i].0.as_str(), id) {
            proof {
                lemma_first_height(sv, id@, i as int);
            }
            return Some(seen[i].1);
        }
        i += 1;
    }
    proof {
        lemma_first_height_none(sv, id@);
    }
    None
}

/// Records `h` for `id` when nothing is recorded for it yet; counts one
/// mismatch when something else is.
fn note_height(seen: &mut Vec<(String, i32)>, mismatches: &mut usize, id: &str, h: i32)
    requires
        *old(mismatches) < usize::MAX,
    ensures
        ({
            let prior = first_height(seen_view(old(seen)@), id@);
            &&& *final(mismatches) == *old(mismatches) + match prior {
                Some(p) => if p != h {
                    1int
                } else {
                    0int
                },
                None => 0int,
            }
            &&& forall|x: Seq<char>|
                #![trigger first_height(seen_view(final(seen)@), x)]
                first_height(seen_view(final(seen)@), x) == first_height(
                    seen_view(old(seen)@).push((id@, h)),
                    x,
                )
        }),
{
    match lookup_height(seen, id) {
        Some(prev) => {
            if prev != h {
                *mismatches = *mismatches + 1;
            }
            assert forall|x: Seq<char>| #![trigger first_height(seen_view(seen@), x)]
                first_height(seen_view(seen@), x) == first_height(seen_view(seen@).push((id@, h)), x) by {
                assert(seen_view(seen@).push((id@, h)).drop_last() =~= seen_view(seen@));
            }
        },
        None => {
            let ghost before = seen_view(seen@);
            seen.push((string_of(id), h));
            assert(seen_view(seen@) =~= before.push((id@, h)));
        },
    }
}

/// Counts the segment ends whose profile height differs from the height
/// first recorded for the same node by an earlier end (every segment's
/// start and end, in segment order).
pub fn count_node_height_mismatches(segments: &[Segment]) -> (n: usize)
    requires
        all_end_events(segments@).len() < usize::MAX,
    ensures
        n == height_mismatches(all_end_events(segments@)),
{
    let mut seen: Vec<(String, i32)> = Vec::new();
    let mut mismatches: usize = 0;
    let mut k: usize = 0;
    while k < segments.len()
        invariant
            k <= segments@.len(),
            all_end_events(segments@).len() < usize::MAX,
            mismatches == height_mismatches(all_end_events(segments@.take(k as int))),
            all_end_events(segments@.take(k as int)).len() <= all_end_events(segments@).len(),
            forall|x: Seq<char>|
                #![trigger first_height(seen_view(seen@), x)]
                first_height(seen_view(seen@), x) == first_height(all_end_events(segments@.take(k as int)), x),
        decreases segments.len() - k,
    {
        let ghost ev = all_end_events(segments@.take(k as int));
        let seg = &segments[k];
        assert(segments@.take(k + 1).drop_last() =~= segments@.take(k as int));
        proof {
            lemma_height_mismatches_bound(ev);
            lemma_events_prefix(segments@, k + 1);
        }
        let pts = seg.points();
        if pts.len() > 0 {
            let ghost e1 = (seg.spec_f_node(), pts@[0].y2);
            let ghost e2 = (seg.spec_t_node(), pts@[pts.len() - 1].y2);
            assert(end_events(*seg) =~= seq![e1, e2]);
            assert(all_end_events(segments@.take(k + 1)) =~= ev.push(e1).push(e2));
            let ghost sv0 = seen_view(seen@);
            note_height(&mut seen, &mut mismatches, seg.f_node(), pts[0].y2);
            assert(ev.push(e1).drop_last() =~= ev);
            proof {
                lemma_height_mismatches_bound(ev.push(e1));
            }
            assert forall|x: Seq<char>| #![trigger first_height(seen_view(seen@), x)]
                first_height(seen_view(seen@), x) == first_height(ev.push(e1), x) by {
                assert(first_height(sv0, x) == first_height(ev, x));
                lemma_push_same(sv0, ev, e1, x);
            }
            let ghost sv1 = seen_view(seen@);
            note_height(&mut seen, &mut mismatches, seg.t_node(), pts[pts.len() - 1].y2);
            assert(ev.push(e1).push(e2).drop_last() =~= ev.push(e1));
            assert forall|x: Seq<char>| #![trigger first_height(seen_view(seen@), x)]
                first_height(seen_view(seen@), x) == first_height(ev.push(e1).push(e2), x) by {
                assert(first_height(sv1, x) == first_height(ev.push(e1), x));
                lemma_push_same(sv1, ev.push(e1), e2, x);
            }
        } else {
            assert(end_events(*seg) =~= Seq::<(Seq<char>, i32)>::empty());
            assert(all_end_events(segments@.take(k + 1)) =~= ev);
        }
        k += 1;
    }
    assert(segments@.take(segments.len() as int) =~= segments@);
    mismatches
}

proof fn lemma_push_same(a: Seq<(Seq<char>, i32)>, b: Seq<(Seq<char>, i32)>, e: (Seq<char>, i32), x: Seq<char>)
    requires
        first_height(a, x) == first_height(b, x),
    ensures
        first_height(a.push(e), x) == first_height(b.push(e), x),
{
    assert(a.push(e).drop_last() =~= a);
    assert(b.push(e).drop_last() =~= b);
}

proof fn lemma_events_prefix(segs: Seq<Segment>, k: int)
    requires
        0 <= k <= segs.len(),
    ensures
        all_end_events(segs.take(k)).len() <= all_end_events(segs).len(),
    decreases segs.len(),
{
    if k < segs.len() {
        assert(segs.drop_last().take(k) =~= segs.take(k));
        lemma_events_prefix(segs.drop_last(), k);
    } else {
        assert(segs.take(k) =~= segs);
    }
}

/// The half-block heights of a profile.
pub open spec fn profile_heights(p: Seq<super::ProfilePoint>) -> Seq<i32> {
    p.map_values(|q: super::ProfilePoint| q.y2)
}

proof fn lemma_limited_profile_no_steep(p: Seq<super::ProfilePoint>)
    requires
        slope_ok(profile_heights(p)),
    ensures
        steep_steps(p) == 0,
    decreases p.len(),
{
    if p.len() > 1 {
        let q = p.drop_last();
        assert(profile_heights(q) =~= profile_heights(p).drop_last());
        assert forall|i: int| 1 <= i < q.len() implies #[trigger] step(profile_heights(q), i) <= MAX_SLOPE_Y2 by {
            assert(step(profile_heights(q), i) == step(profile_heights(p), i));
        }
        lemma_limited_profile_no_steep(q);
        assert(step(profile_heights(p), p.len() - 1) <= MAX_SLOPE_Y2);
    }
}

/// Profiles that have been through the slope-limiting pass (every step
/// within the limit) report no slope violations.
pub proof fn lemma_limited_profiles_report_no_violations(segs: Seq<Segment>)
    requires
        forall|k: int| 0 <= k < segs.len() ==> slope_ok(profile_heights((#[trigger] segs[k]).spec_points())),
    ensures
        slope_violations_of(segs) == 0,
    decreases segs.len(),
{
    if segs.len() > 0 {
        let s1 = segs.drop_last();
        assert forall|k: int| 0 <= k < s1.len() implies slope_ok(profile_heights((#[trigger] s1[k]).spec_points())) by {
            assert(s1[k] == segs[k]);
        }
        lemma_limited_profiles_report_no_violations(s1);
        lemma_limited_profile_no_steep(segs.last().spec_points());
    }
}

/// The ids of the segments meeting at node `node`, in segment order; a
/// segment is listed once for each of its ends at the node.
pub open spec fn segment_ids_at(segs: Seq<Segment>, node: Seq<char>) -> Seq<Seq<char>>
    decreases segs.len(),
{
    if segs.len() == 0 {
        Seq::empty()
    } else {
        let s = segs.last();
        segment_ids_at(segs.drop_last(), node) + (if s.spec_f_node() == node {
            seq![s.spec_id()]
        } else {
            Seq::empty()
        }) + (if s.spec_t_node() == node {
            seq![s.spec_id()]
        } else {
            Seq::empty()
        })
    }
}

/// The segments meeting at `node` (see [`segment_ids_at`]); their count is
/// the node's degree.
pub fn segments_at(segments: &[Segment], node: &str) -> (r: Vec<String>)
    ensures
        r@.map_values(|s: String| s@) == segment_ids_at(segments@, node@),
{
    let mut r: Vec<String> = Vec::new();
    let mut i: usize = 0;
    while i < segments.len()
        invariant
            i <= segments@.len(),
            r@.map_values(|s: String| s@) == segment_ids_at(segments@.take(i as int), node@),
        decreases segments@.len() - i,
    {
        let s = &segments[i];
        assert(segments@.take(i + 1).drop_last() =~= segments@.take(i as int));
        let ghost before = r@.map_values(|x: String| x@);
        if str_eq(s.f_node(), node) {
            r.push(string_of(s.id()));
        }
        let ghost mid = r@.map_values(|x: String| x@);
        assert(mid =~= before + (if s.spec_f_node() == node@ {
            seq![s.spec_id()]
        } else {
            Seq::empty()
        }));
        if str_eq(s.t_node(), node) {
            r.push(string_of(s.id()));
        }
        assert(r@.map_values(|x: String| x@) =~= mid + (if s.spec_t_node() == node@ {
            seq![s.spec_id()]
        } else {
            Seq::empty()
        }));
        i += 1;
    }
    assert(segments@.take(segments@.len() as int) =~= segments@);
    r
}

/// One node of the road graph document: its id, block position and
/// surface height, and the segments meeting there, whose count is its
/// degree.
pub struct GraphNodeEntry {
    pub id: String,
    pub x: i32,
    pub z: i32,
    pub y2: i32,
    pub segments: Vec<String>,
    pub degree: usize,
}

/// The graph entry of the node `id` solved at surface `y2`: its position
/// `pos` and the segments meeting there (see [`segments_at`]); none for a
/// node without a position.
pub fn graph_node(segments: &[Segment], id: &str, pos: Option<(i32, i32)>, y2: i32) -> (r: Option<GraphNodeEntry>)
    ensures
        r is None <==> pos is None,
        r matches Some(e) ==> {
            &&& e.id@ == id@
            &&& pos == Some((e.x, e.z))
            &&& e.y2 == y2
            &&& e.segments@.map_values(|s: String| s@) == segment_ids_at(segments@, id@)
            &&& e.degree == e.segments@.len()
        },
{
    match pos {
        Some((x, z)) => {
            let segs = segments_at(segments, id);
            let degree = segs.len();
            Some(GraphNodeEntry { id: string_of(id), x, z, y2, segments: segs, degree })
        },
        None => None,
    }
}

} // verus!
