//! Where crosswalks go: on every approach of a grade A to C segment to a
//! real intersection, a node where three or more segment ends meet (a node
//! where one road just continues into the next does not count).

use super::{RoadClass, Segment};
use crate::text::string_of;
use fnv::FnvHashMap;
use vstd::prelude::*;

verus! {

/// The node-degree table of a segment list: what it holds, by node id.
pub uninterp spec fn degree_table(m: FnvHashMap<String, u32>) -> Map<Seq<char>, u32>;

/// The table with no nodes.
pub open spec fn no_degrees() -> Map<Seq<char>, u32> {
    Map::empty()
}

/// `FnvHashMap::default()` for the node-degree table: holds no node.
#[verifier::external_body]
fn degree_map_default() -> (empty: FnvHashMap<String, u32>)
    ensures
        degree_table(empty) == no_degrees(),
{
    FnvHashMap::default()
}

/// std's `HashMap::get` on the fnv-hashed node-degree table (a `String`
/// key is found by its text): the count stored for `node`, if any.
#[verifier::external_body]
fn degree_map_get(m: &FnvHashMap<String, u32>, node: &str) -> (r: Option<u32>)
    ensures
        degree_table(*m).contains_key(node@) ==> r == Some(degree_table(*m)[node@]),
        !degree_table(*m).contains_key(node@) ==> r is None,
{
    m.get(node).copied()
}

/// std's `HashMap::insert` on the fnv-hashed node-degree table: afterwards
/// `node` maps to `count` and every other node as before.
#[verifier::external_body]
fn degree_map_insert(m: &mut FnvHashMap<String, u32>, node: String, count: u32)
    ensures
        degree_table(*final(m)) == degree_table(*old(m)).insert(node@, count),
{
    m.insert(node, count);
}

/// How many ends of the first `n` segments lie at node `node` (a segment
/// whose two ends are the node counts twice).
pub open spec fn ends_at(segs: Seq<&Segment>, node: Seq<char>, n: int) -> nat
    decreases n,
{
    if n <= 0 {
        0
    } else {
        ends_at(segs, node, n - 1) + (if segs[n - 1].spec_f_node() == node {
            1nat
        } else {
            0nat
        }) + (if segs[n - 1].spec_t_node() == node {
            1nat
        } else {
            0nat
        })
    }
}

/// Node `node` is an intersection of `segs`: three or more segment ends.
pub open spec fn is_intersection(segs: Seq<&Segment>, node: Seq<char>) -> bool {
    ends_at(segs, node, segs.len() as int) >= 3
}

/// A segment whose intersection approaches get crosswalks: grade A to C
/// with at least two points.
pub open spec fn takes_crosswalks(s: &Segment) -> bool {
    (s.spec_class() == RoadClass::A || s.spec_class() == RoadClass::B || s.spec_class() == RoadClass::C)
        && s.spec_points().len() >= 2
}

/// The crosswalk approaches among the first `n` segments, in segment order:
/// `(k, false)` for the start of segment `k` at an intersection, then
/// `(k, true)` for its end at one.
pub open spec fn crosswalk_ends_spec(segs: Seq<&Segment>, n: int) -> Seq<(usize, bool)>
    decreases n,
{
    if n <= 0 {
        Seq::empty()
    } else {
        let s = segs[n - 1];
        crosswalk_ends_spec(segs, n - 1) + if takes_crosswalks(s) {
            (if is_intersection(segs, s.spec_f_node()) {
                seq![((n - 1) as usize, false)]
            } else {
                Seq::empty()
            }) + (if is_intersection(segs, s.spec_t_node()) {
                seq![((n - 1) as usize, true)]
            } else {
                Seq::empty()
            })
        } else {
            Seq::empty()
        }
    }
}

proof fn lemma_ends_bound(segs: Seq<&Segment>, node: Seq<char>, n: int)
    requires
        0 <= n <= segs.len(),
    ensures
        ends_at(segs, node, n) <= 2 * n,
    decreases n,
{
    if n > 0 {
        lemma_ends_bound(segs, node, n - 1);
    }
}

/// The degree table of the first `n` segments: exactly the nodes with an
/// end there, each with its count.
pub open spec fn counts_ends(t: Map<Seq<char>, u32>, segs: Seq<&Segment>, n: int) -> bool {
    forall|node: Seq<char>|
        #![trigger t.contains_key(node)]
        (t.contains_key(node) <==> ends_at(segs, node, n) > 0) && (t.contains_key(node) ==> t[node] == ends_at(
            segs,
            node,
            n,
        ))
}

/// Adds one end at `node` to the table.
fn add_end(m: &mut FnvHashMap<String, u32>, node: &str)
    requires
        degree_table(*old(m)).contains_key(node@) ==> degree_table(*old(m))[node@] < u32::MAX,
    ensures
        degree_table(*final(m)) == degree_table(*old(m)).insert(
            node@,
            if degree_table(*old(m)).contains_key(node@) {
                (degree_table(*old(m))[node@] + 1) as u32
            } else {
                1u32
            },
        ),
{
    let count = match degree_map_get(m, node) {
        Some(c) => c + 1,
        None => 1,
    };
    degree_map_insert(m, string_of(node), count);
}

/// The node-degree count of `node` in a table of every segment end.
fn degree_of(m: &FnvHashMap<String, u32>, node: &str) -> (d: u32)
    ensures
        degree_table(*m).contains_key(node@) ==> d == degree_table(*m)[node@],
        !degree_table(*m).contains_key(node@) ==> d == 0,
{
    match degree_map_get(m, node) {
        Some(c) => c,
        None => 0,
    }
}

/// The crosswalk approaches of `segments` (see [`crosswalk_ends_spec`]):
/// each a segment's position and whether the crosswalk sits at its end
/// (`true`) or its start (`false`).
pub fn crosswalk_ends(segments: &[&Segment]) -> (r: Vec<(usize, bool)>)
    requires
        2 * segments@.len() <= u32::MAX,
    ensures
        r@ == crosswalk_ends_spec(segments@, segments@.len() as int),
{
    let ghost segs = segments@;
    let mut degree = degree_map_default();
    let mut i: usize = 0;
    while i < segments.len()
        invariant
            segs == segments@,
            2 * segs.len() <= u32::MAX,
            i <= segs.len(),
            counts_ends(degree_table(degree), segs, i as int),
        decreases segs.len() - i,
    {
        let s = segments[i];
        let ghost t0 = degree_table(degree);
        proof {
            lemma_ends_bound(segs, s.spec_f_node(), i as int);
            lemma_ends_bound(segs, s.spec_t_node(), i as int);
        }
        assert(t0.contains_key(s.spec_f_node()) ==> t0[s.spec_f_node()] < u32::MAX);
        add_end(&mut degree, s.f_node());
        let ghost t1 = degree_table(degree);
        assert(t1.contains_key(s.spec_t_node()) ==> t1[s.spec_t_node()] < u32::MAX) by {
            if t1.contains_key(s.spec_t_node()) && s.spec_t_node() != s.spec_f_node() {
                assert(t0.contains_key(s.spec_t_node()));
            }
        }
        add_end(&mut degree, s.t_node());
        proof {
            let t2 = degree_table(degree);
            assert forall|node: Seq<char>| #[trigger] t2.contains_key(node) <==> ends_at(segs, node, i + 1) > 0 by {
                if node != s.spec_f_node() && node != s.spec_t_node() {
                    assert(t2.contains_key(node) == t0.contains_key(node));
                }
            }
            assert forall|node: Seq<char>| #[trigger] t2.contains_key(node) implies t2[node] == ends_at(segs, node, i + 1) by {
                if node != s.spec_f_node() && node != s.spec_t_node() {
                    assert(t0.contains_key(node));
                } else if node == s.spec_f_node() && node != s.spec_t_node() {
                    assert(t2[node] == t1[node]);
                } else if node != s.spec_f_node() && node == s.spec_t_node() {
                    if t0.contains_key(node) {
                        assert(t1[node] == t0[node]);
                    }
                }
            }
        }
        i += 1;
    }
    let mut r: Vec<(usize, bool)> = Vec::new();
    let mut k: usize = 0;
    while k < segments.len()
        invariant
            segs == segments@,
            k <= segs.len(),
            counts_ends(degree_table(degree), segs, segs.len() as int),
            r@ == crosswalk_ends_spec(segs, k as int),
        decreases segs.len() - k,
    {
        let s = segments[k];
        let grade = s.class();
        if (grade == RoadClass::A || grade == RoadClass::B || grade == RoadClass::C) && s.points().len() >= 2 {
            let df = degree_of(&degree, s.f_node());
            let dt = degree_of(&degree, s.t_node());
            assert((df >= 3) == is_intersection(segs, s.spec_f_node()));
            assert((dt >= 3) == is_intersection(segs, s.spec_t_node()));
            if df >= 3 {
                r.push((k, false));
            }
            if dt >= 3 {
                r.push((k, true));
            }
        }
        assert(r@ =~= crosswalk_ends_spec(segs, k + 1));
        k += 1;
    }
    r
}

} // verus!
