//! The raw network as the node and link layers give it: one node per point
//! record with its `NODE_ID`, one link per polyline record of at least two
//! points with its attributes, and the selection of the links the solve can
//! use (both end nodes known, not replaced by a bridge deck).

use super::shapefile::{field_value, DbfTable};
use crate::text::{chars_of, parse_i32, parse_i32_spec, str_eq};
use vstd::prelude::*;

verus! {

broadcast use vstd::string::group_string_axioms;

/// A node of the node layer: its id and its EN position (`f64` bit
/// patterns).
pub struct RawNode {
    pub id: String,
    pub e: u64,
    pub n: u64,
}

/// A link of the link layer: its attributes and its EN polyline (`f64`
/// bit patterns).
pub struct RawLink {
    pub link_id: String,
    pub f_node: String,
    pub t_node: String,
    pub lanes: i32,
    pub road_rank: String,
    pub road_name: String,
    pub road_type: String,
    pub points_en: Vec<(u64, u64)>,
}

/// The lane count a `LANES` text gives: its `i32` value, or 0 when it does
/// not parse.
pub open spec fn lanes_of(text: Seq<char>) -> i32 {
    match parse_i32_spec(text) {
        Some(v) => v,
        None => 0,
    }
}

/// The lane count of a `LANES` text (0 when it does not parse).
pub fn lanes_from_text(text: &str) -> (n: i32)
    ensures
        n == lanes_of(text@),
{
    let v = chars_of(text);
    match parse_i32(v.as_slice()) {
        Some(n) => n,
        None => 0,
    }
}

/// A table's text for `field` in record `i`.
pub open spec fn cell(dbf: DbfTable, i: int, field: Seq<char>) -> Seq<char> {
    field_value(dbf.spec_fields(), dbf.spec_record_len(), dbf.spec_records(), dbf.spec_encoding(), dbf.spec_len(), i, field)
}

/// The nodes of the node layer: record `i`'s `NODE_ID` with point `i`.
pub fn raw_nodes(dbf: &DbfTable, points: &[(u64, u64)]) -> (r: Vec<RawNode>)
    ensures
        r@.len() == points@.len(),
        forall|i: int|
            0 <= i < r@.len() ==> {
                &&& (#[trigger] r@[i]).id@ == cell(*dbf, i, "NODE_ID"@)
                &&& r@[i].e == points@[i].0
                &&& r@[i].n == points@[i].1
            },
{
    let mut r: Vec<RawNode> = Vec::new();
    let mut i: usize = 0;
    while i < points.len()
        invariant
            i <= points@.len(),
            r@.len() == i,
            forall|k: int|
                0 <= k < i ==> {
                    &&& (#[trigger] r@[k]).id@ == cell(*dbf, k, "NODE_ID"@)
                    &&& r@[k].e == points@[k].0
                    &&& r@[k].n == points@[k].1
                },
        decreases points.len() - i,
    {
        let (e, n) = points[i];
        r.push(RawNode { id: dbf.get(i, "NODE_ID"), e, n });
        i += 1;
    }
    r
}

/// The link record `i` read from the table, with its polyline.
pub open spec fn link_of(dbf: DbfTable, i: int, line: Seq<(u64, u64)>, l: RawLink) -> bool {
    &&& l.link_id@ == cell(dbf, i, "LINK_ID"@)
    &&& l.f_node@ == cell(dbf, i, "F_NODE"@)
    &&& l.t_node@ == cell(dbf, i, "T_NODE"@)
    &&& l.lanes == lanes_of(cell(dbf, i, "LANES"@))
    &&& l.road_rank@ == cell(dbf, i, "ROAD_RANK"@)
    &&& l.road_name@ == cell(dbf, i, "ROAD_NAME"@)
    &&& l.road_type@ == cell(dbf, i, "ROAD_TYPE"@)
    &&& l.points_en@ == line
}

/// The indices of the polylines of at least two points, in order.
pub open spec fn drawable(lines: Seq<Seq<(u64, u64)>>, n: int) -> Seq<int>
    decreases n,
{
    if n <= 0 {
        Seq::empty()
    } else {
        drawable(lines, n - 1) + if lines[n - 1].len() >= 2 {
            seq![n - 1]
        } else {
            Seq::empty()
        }
    }
}

proof fn lemma_drawable_bounds(lines: Seq<Seq<(u64, u64)>>, n: int)
    requires
        0 <= n <= lines.len(),
    ensures
        drawable(lines, n).len() <= n,
        forall|k: int| 0 <= k < drawable(lines, n).len() ==> 0 <= #[trigger] drawable(lines, n)[k] < n,
    decreases n,
{
    if n > 0 {
        lemma_drawable_bounds(lines, n - 1);
    }
}

/// The links of the link layer: one per polyline of at least two points
/// (shorter ones are dropped), record `i`'s attributes with polyline `i`.
pub fn raw_links(dbf: &DbfTable, lines: Vec<Vec<(u64, u64)>>) -> (r: Vec<RawLink>)
    ensures
        ({
            let ls = lines@.map_values(|l: Vec<(u64, u64)>| l@);
            let keep = drawable(ls, ls.len() as int);
            &&& r@.len() == keep.len()
            &&& forall|k: int| 0 <= k < r@.len() ==> link_of(*dbf, keep[k], ls[keep[k]], #[trigger] r@[k])
        }),
{
    let ghost ls = lines@.map_values(|l: Vec<(u64, u64)>| l@);
    let n = lines.len();
    let mut lines = lines;
    let mut taken: Vec<Vec<(u64, u64)>> = Vec::new();
    let mut r: Vec<RawLink> = Vec::new();
    let mut i: usize = 0;
    while i < n
        invariant
            i <= n,
            n == ls.len(),
            lines@.len() == n,
            forall|k: int| i <= k < n ==> (#[trigger] lines@[k])@ == ls[k],
            r@.len() == drawable(ls, i as int).len(),
            forall|k: int|
                0 <= k < r@.len() ==> link_of(*dbf, drawable(ls, i as int)[k], ls[drawable(ls, i as int)[k]], #[trigger] r@[k]),
        decreases n - i,
    {
        proof {
            lemma_drawable_bounds(ls, i as int);
        }
        let mut line: Vec<(u64, u64)> = Vec::new();
        std::mem::swap(&mut line, &mut lines[i]);
        assert(line@ == ls[i as int]);
        let ghost before = r@;
        if line.len() >= 2 {
            let lanes = lanes_from_text(dbf.get(i, "LANES").as_str());
            r.push(
                RawLink {
                    link_id: dbf.get(i, "LINK_ID"),
                    f_node: dbf.get(i, "F_NODE"),
                    t_node: dbf.get(i, "T_NODE"),
                    lanes,
                    road_rank: dbf.get(i, "ROAD_RANK"),
                    road_name: dbf.get(i, "ROAD_NAME"),
                    road_type: dbf.get(i, "ROAD_TYPE"),
                    points_en: line,
                },
            );
            assert(drawable(ls, i + 1) == drawable(ls, i as int).push(i as int));
        } else {
            taken.push(line);
            assert(drawable(ls, i + 1) =~= drawable(ls, i as int));
        }
        i += 1;
    }
    r
}

// ---- link selection ---------------------------------------------------------

/// Whether `id` is one of `ids`.
pub open spec fn has_id(ids: Seq<Seq<char>>, id: Seq<char>) -> bool {
    exists|k: int| 0 <= k < ids.len() && ids[k] == id
}

fn contains_id(ids: &[String], id: &str) -> (r: bool)
    ensures
        r == has_id(ids@.map_values(|s: String| s@), id@),
{
    let ghost v = ids@.map_values(|s: String| s@);
    let mut k: usize = 0;
    while k < ids.len()
        invariant
            k <= ids@.len(),
            v == ids@.map_values(|s: String| s@),
            forall|j: int| 0 <= j < k ==> v[j] != id@,
        decreases ids.len() - k,
    {
        if str_eq(ids[k].as_str(), id) {
            assert(v[k as int] == id@);
            return true;
        }
        k += 1;
    }
    false
}

/// The links, in order, that a bridge deck does not replace.
pub open spec fn not_excluded(links: Seq<Seq<char>>, excluded: Seq<Seq<char>>, n: int) -> Seq<int>
    decreases n,
{
    if n <= 0 {
        Seq::empty()
    } else {
        not_excluded(links, excluded, n - 1) + if has_id(excluded, links[n - 1]) {
            Seq::empty()
        } else {
            seq![n - 1]
        }
    }
}

/// The positions of the links whose id is not among `excluded` (the links
/// a manual bridge deck replaces), in order.
pub fn drop_excluded_links(link_ids: &[String], excluded: &[String]) -> (r: Vec<usize>)
    ensures
        r@.map_values(|k: usize| k as int) == not_excluded(
            link_ids@.map_values(|s: String| s@),
            excluded@.map_values(|s: String| s@),
            link_ids@.len() as int,
        ),
{
    let ghost ls = link_ids@.map_values(|s: String| s@);
    let ghost ex = excluded@.map_values(|s: String| s@);
    let mut r: Vec<usize> = Vec::new();
    let mut i: usize = 0;
    while i < link_ids.len()
        invariant
            i <= link_ids@.len(),
            ls == link_ids@.map_values(|s: String| s@),
            ex == excluded@.map_values(|s: String| s@),
            r@.map_values(|k: usize| k as int) == not_excluded(ls, ex, i as int),
        decreases link_ids.len() - i,
    {
        let ghost before = r@.map_values(|k: usize| k as int);
        if !contains_id(excluded, link_ids[i].as_str()) {
            r.push(i);
            assert(r@.map_values(|k: usize| k as int) =~= before.push(i as int));
        }
        i += 1;
    }
    r
}

/// The links, in order, both of whose end nodes are known, and how many
/// were skipped for a missing end node.
pub open spec fn usable(ends: Seq<(Seq<char>, Seq<char>)>, nodes: Seq<Seq<char>>, n: int) -> Seq<int>
    decreases n,
{
    if n <= 0 {
        Seq::empty()
    } else {
        usable(ends, nodes, n - 1) + if has_id(nodes, ends[n - 1].0) && has_id(nodes, ends[n - 1].1) {
            seq![n - 1]
        } else {
            Seq::empty()
        }
    }
}

proof fn lemma_usable_len(ends: Seq<(Seq<char>, Seq<char>)>, nodes: Seq<Seq<char>>, n: int)
    requires
        0 <= n,
    ensures
        usable(ends, nodes, n).len() <= n,
    decreases n,
{
    if n > 0 {
        lemma_usable_len(ends, nodes, n - 1);
    }
}

/// The positions of the links (given by their from- and to-node ids) whose
/// end nodes are both among `node_ids`, in order, and the number of links
/// skipped because an end node is missing.
pub fn usable_links(ends: &[(String, String)], node_ids: &[String]) -> (r: (Vec<usize>, usize))
    ensures
        ({
            let es = ends@.map_values(|e: (String, String)| (e.0@, e.1@));
            let u = usable(es, node_ids@.map_values(|s: String| s@), ends@.len() as int);
            &&& r.0@.map_values(|k: usize| k as int) == u
            &&& r.1 == ends@.len() - u.len()
        }),
{
    let ghost es = ends@.map_values(|e: (String, String)| (e.0@, e.1@));
    let ghost ns = node_ids@.map_values(|s: String| s@);
    let mut r: Vec<usize> = Vec::new();
    let mut skipped: usize = 0;
    let mut i: usize = 0;
    while i < ends.len()
        invariant
            i <= ends@.len(),
            es == ends@.map_values(|e: (String, String)| (e.0@, e.1@)),
            ns == node_ids@.map_values(|s: String| s@),
            r@.map_values(|k: usize| k as int) == usable(es, ns, i as int),
            skipped == i - usable(es, ns, i as int).len(),
        decreases ends.len() - i,
    {
        proof {
            lemma_usable_len(es, ns, i as int);
        }
        let ghost before = r@.map_values(|k: usize| k as int);
        let (f, t) = (&ends[i].0, &ends[i].1);
        if contains_id(node_ids, f.as_str()) && contains_id(node_ids, t.as_str()) {
            r.push(i);
            assert(r@.map_values(|k: usize| k as int) =~= before.push(i as int));
        } else {
            skipped += 1;
        }
        i += 1;
    }
    (r, skipped)
}

} // verus!
