//! Route-stop matching by name: the route CSV has only stop names and
//! order, the stop table has coordinates, and the two numbering systems do
//! not join, so each route stop's candidates are the stops whose name
//! matches -- exactly, after stripping separators, as the same set of
//! tokens in any order, or (last resort) as a substring.

use crate::bus_routes::{stop_view, RouteStop};
use crate::text::{chars_eq, chars_of, contains_chars, seq_contains, string_from_chars};
use vstd::prelude::*;

verus! {

broadcast use vstd::string::group_string_axioms;

/// How sure a resolved stop's position is.
#[derive(Clone, Copy, PartialEq, Eq, Structural, Debug)]
pub enum Confidence {
    /// Only one stop carries this name -- no choice was made.
    High,
    /// Several stops share the name, but the pick is a near twin or had a
    /// clear cost margin.
    Medium,
    /// Several stops share the name and the pick was a close call, or the
    /// match came from the substring fallback.
    Low,
}

/// Why a route stop was left unplaced.
#[derive(Clone, Copy, PartialEq, Eq, Structural, Debug)]
pub enum UnplacedReason {
    /// No stop anywhere carries this name.
    NoNameMatch,
    /// Several stops share this name, but the route had fewer than two
    /// placeable positions, so there was no path geometry to disambiguate.
    AmbiguousNoRouteContext { candidates: usize },
}

/// A route stop resolved to one stop of the stop table.
pub struct MatchedStop {
    pub seq: u32,
    pub stop_code: String,
    pub stop_name: String,
    pub bstopid: u64,
    pub confidence: Confidence,
    pub candidate_count: usize,
    /// The candidates came from the substring fallback (always paired
    /// with `Confidence::Low`).
    pub via_substring: bool,
}

/// A route stop that could not be placed.
pub struct UnplacedStop {
    pub seq: u32,
    pub stop_code: String,
    pub stop_name: String,
    pub reason: UnplacedReason,
}

/// Whether `c` glues or brackets name parts: `.`, `·`, `,`, `(`, `)`,
/// `/`, `-`, `_` or a space.
pub open spec fn is_separator(c: char) -> bool {
    c == '.' || c == '·' || c == ',' || c == '(' || c == ')' || c == '/' || c == '-' || c == '_' || c == ' '
}

/// Whether `c` is a name separator (see [`is_separator`]).
pub fn separator(c: char) -> (r: bool)
    ensures
        r == is_separator(c),
{
    c == '.' || c == '·' || c == ',' || c == '(' || c == ')' || c == '/' || c == '-' || c == '_' || c == ' '
}

/// `s` with every separator removed.
pub open spec fn strip_separators(s: Seq<char>) -> Seq<char>
    decreases s.len(),
{
    if s.len() == 0 {
        s
    } else {
        strip_separators(s.drop_last()) + if is_separator(s.last()) {
            Seq::empty()
        } else {
            seq![s.last()]
        }
    }
}

/// A name with every separator removed.
pub fn normalize_name(name: &[char]) -> (r: Vec<char>)
    ensures
        r@ == strip_separators(name@),
{
    let mut out: Vec<char> = Vec::new();
    let mut i: usize = 0;
    while i < name.len()
        invariant
            i <= name@.len(),
            out@ == strip_separators(name@.take(i as int)),
        decreases name.len() - i,
    {
        assert(name@.take(i + 1).drop_last() =~= name@.take(i as int));
        if !separator(name[i]) {
            out.push(name[i]);
        }
        assert(out@ =~= strip_separators(name@.take(i + 1)));
        i += 1;
    }
    assert(name@.take(name.len() as int) =~= name@);
    out
}

/// Index of the first separator in `s` at or after `i`, or `s.len()`.
pub open spec fn separator_index(s: Seq<char>, i: int) -> int
    decreases s.len() - i,
{
    if i < 0 || i >= s.len() {
        s.len() as int
    } else if is_separator(s[i]) {
        i
    } else {
        separator_index(s, i + 1)
    }
}

/// The non-empty runs of non-separator characters of `s`, in order.
pub open spec fn tokens(s: Seq<char>) -> Seq<Seq<char>>
    decreases s.len(),
{
    if s.len() == 0 {
        Seq::empty()
    } else {
        let i = separator_index(s, 0);
        let rest = if 0 <= i < s.len() { tokens(s.skip(i + 1)) } else { Seq::empty() };
        if i > 0 {
            seq![s.take(i)] + rest
        } else {
            rest
        }
    }
}

/// Lexicographic `a <= b` by code point (the order of `str`, whose bytes
/// compare in the same order).
pub open spec fn lex_le(a: Seq<char>, b: Seq<char>) -> bool
    decreases a.len(),
{
    if a.len() == 0 {
        true
    } else if b.len() == 0 {
        false
    } else if a[0] < b[0] {
        true
    } else if a[0] > b[0] {
        false
    } else {
        lex_le(a.skip(1), b.skip(1))
    }
}

/// `x` inserted into `s` after every element that is `<= x`.
pub open spec fn insert_sorted(s: Seq<Seq<char>>, x: Seq<char>) -> Seq<Seq<char>>
    decreases s.len(),
{
    if s.len() == 0 {
        seq![x]
    } else if lex_le(s[0], x) {
        seq![s[0]] + insert_sorted(s.skip(1), x)
    } else {
        seq![x] + s
    }
}

/// `s` sorted ascending (insertion order; equal strings are identical, so
/// this is the one ascending arrangement).
pub open spec fn sort_strings(s: Seq<Seq<char>>) -> Seq<Seq<char>>
    decreases s.len(),
{
    if s.len() == 0 {
        s
    } else {
        insert_sorted(sort_strings(s.drop_last()), s.last())
    }
}

/// The strings of `s` joined with `sep` between neighbours.
pub open spec fn join(s: Seq<Seq<char>>, sep: char) -> Seq<char>
    decreases s.len(),
{
    if s.len() == 0 {
        Seq::empty()
    } else if s.len() == 1 {
        s[0]
    } else {
        join(s.drop_last(), sep) + seq![sep] + s.last()
    }
}

/// The order-independent token key of a name: its tokens sorted and
/// joined with `U+0001`.
pub open spec fn token_key(s: Seq<char>) -> Seq<char> {
    join(sort_strings(tokens(s)), '\u{1}')
}

fn lex_le_exec(a: &[char], b: &[char]) -> (r: bool)
    ensures
        r == lex_le(a@, b@),
{
    let mut i: usize = 0;
    assert(a@.skip(0) =~= a@);
    assert(b@.skip(0) =~= b@);
    while i < a.len() && i < b.len() && a[i] == b[i]
        invariant
            i <= a@.len(),
            i <= b@.len(),
            lex_le(a@, b@) == lex_le(a@.skip(i as int), b@.skip(i as int)),
        decreases a.len() - i,
    {
        assert(a@.skip(i as int).skip(1) =~= a@.skip(i + 1));
        assert(b@.skip(i as int).skip(1) =~= b@.skip(i + 1));
        i += 1;
    }
    let ghost sa = a@.skip(i as int);
    let ghost sb = b@.skip(i as int);
    if i == a.len() {
        assert(sa.len() == 0);
        true
    } else if i == b.len() {
        assert(sa.len() > 0 && sb.len() == 0);
        false
    } else {
        assert(sa[0] == a@[i as int] && sb[0] == b@[i as int]);
        assert(a@[i as int] != b@[i as int]);
        if a[i] < b[i] {
            assert(lex_le(sa, sb));
            true
        } else {
            assert(!lex_le(sa, sb));
            false
        }
    }
}

proof fn lemma_insert_sorted_at(s: Seq<Seq<char>>, x: Seq<char>, p: int)
    requires
        0 <= p <= s.len(),
        forall|k: int| 0 <= k < p ==> lex_le(#[trigger] s[k], x),
        p == s.len() || !lex_le(s[p], x),
    ensures
        insert_sorted(s, x) == s.take(p).push(x) + s.skip(p),
    decreases s.len(),
{
    if s.len() == 0 {
        assert(s.take(p).push(x) + s.skip(p) =~= seq![x]);
    } else if p == 0 {
        assert(s.take(0).push(x) + s.skip(0) =~= seq![x] + s);
    } else {
        assert(lex_le(s[0], x));
        lemma_insert_sorted_at(s.skip(1), x, p - 1);
        assert(s.take(p).push(x) + s.skip(p) =~= seq![s[0]] + (s.skip(1).take(p - 1).push(x) + s.skip(1).skip(p - 1)));
    }
}

/// The tokens of `s` from position `i` on.
fn tokens_from(s: &[char], i: usize) -> (r: Vec<Vec<char>>)
    requires
        i <= s@.len(),
    ensures
        r@.len() == tokens(s@.skip(i as int)).len(),
        forall|k: int| 0 <= k < r@.len() ==> (#[trigger] r@[k])@ == tokens(s@.skip(i as int))[k],
    decreases s@.len() - i,
{
    let ghost t = s@.skip(i as int);
    if i == s.len() {
        assert(t.len() == 0);
        return Vec::new();
    }
    let mut j = i;
    while j < s.len() && !separator(s[j])
        invariant
            i <= j <= s@.len(),
            t == s@.skip(i as int),
            separator_index(t, 0) == separator_index(t, j - i),
        decreases s.len() - j,
    {
        j += 1;
    }
    assert(separator_index(t, j - i) == j - i);
    let rest = if j < s.len() {
        tokens_from(s, j + 1)
    } else {
        Vec::new()
    };
    proof {
        if j < s.len() {
            assert(t.skip(j - i + 1) =~= s@.skip(j + 1));
        }
    }
    if j > i {
        let mut head: Vec<char> = Vec::new();
        let mut k = i;
        while k < j
            invariant
                i <= k <= j <= s@.len(),
                head@ == s@.subrange(i as int, k as int),
            decreases j - k,
        {
            head.push(s[k]);
            assert(head@ =~= s@.subrange(i as int, k + 1));
            k += 1;
        }
        assert(head@ =~= t.take(j - i));
        let mut out: Vec<Vec<char>> = Vec::new();
        out.push(head);
        let mut m: usize = 0;
        let mut rest = rest;
        let ghost rv = rest@;
        let n = rest.len();
        while m < n
            invariant
                n == rv.len(),
                0 <= m <= rv.len(),
                out@.len() == m + 1,
                out@[0]@ == t.take(j - i),
                forall|q: int| 1 <= q < out@.len() ==> (#[trigger] out@[q])@ == rv[q - 1]@,
                rest@ == rv.skip(m as int),
            decreases n - m,
        {
            let x = rest.remove(0);
            assert(rv.skip(m as int).skip(1) =~= rv.skip(m + 1));
            out.push(x);
            m += 1;
        }
        out
    } else {
        rest
    }
}

/// The token key of a name (see [`token_key`]).
pub fn token_set_key(name: &[char]) -> (r: Vec<char>)
    ensures
        r@ == token_key(name@),
{
    let toks = tokens_from(name, 0);
    assert(name@.skip(0) =~= name@);
    let ghost tv = tokens(name@);
    let mut sorted: Vec<Vec<char>> = Vec::new();
    let mut i: usize = 0;
    while i < toks.len()
        invariant
            i <= toks@.len(),
            toks@.len() == tv.len(),
            forall|k: int| 0 <= k < toks@.len() ==> (#[trigger] toks@[k])@ == tv[k],
            sorted@.map_values(|v: Vec<char>| v@) == sort_strings(tv.take(i as int)),
        decreases toks.len() - i,
    {
        let ghost sv = sorted@.map_values(|v: Vec<char>| v@);
        let x = toks[i].clone();
        assert(x@ == tv[i as int]);
        let mut p: usize = 0;
        while p < sorted.len() && lex_le_exec(sorted[p].as_slice(), x.as_slice())
            invariant
                p <= sorted@.len(),
                sv == sorted@.map_values(|v: Vec<char>| v@),
                forall|k: int| 0 <= k < p ==> lex_le(#[trigger] sv[k], x@),
            decreases sorted.len() - p,
        {
            p += 1;
        }
        proof {
            lemma_insert_sorted_at(sv, x@, p as int);
            assert(tv.take(i + 1).drop_last() =~= tv.take(i as int));
        }
        sorted.insert(p, x);
        assert(sorted@.map_values(|v: Vec<char>| v@) =~= sv.take(p as int).push(tv[i as int]) + sv.skip(p as int));
        i += 1;
    }
    assert(tv.take(toks.len() as int) =~= tv);
    let ghost sv = sorted@.map_values(|v: Vec<char>| v@);
    let mut out: Vec<char> = Vec::new();
    let mut k: usize = 0;
    while k < sorted.len()
        invariant
            k <= sorted@.len(),
            sv == sorted@.map_values(|v: Vec<char>| v@),
            out@ == join(sv.take(k as int), '\u{1}'),
        decreases sorted.len() - k,
    {
        assert(sv.take(k + 1).drop_last() =~= sv.take(k as int));
        if k > 0 {
            out.push('\u{1}');
        }
        let w = &sorted[k];
        let mut c: usize = 0;
        let ghost before = out@;
        while c < w.len()
            invariant
                c <= w@.len(),
                out@ == before + w@.take(c as int),
            decreases w.len() - c,
        {
            out.push(w[c]);
            assert(out@ =~= before + w@.take(c + 1));
            c += 1;
        }
        assert(w@.take(w@.len() as int) =~= w@);
        assert(out@ =~= join(sv.take(k + 1), '\u{1}'));
        k += 1;
    }
    assert(sv.take(sorted@.len() as int) =~= sv);
    out
}

/// The ids whose string (among the first `n`) equals `key`, in order.
pub open spec fn matching_ids(ids: Seq<u64>, strs: Seq<Seq<char>>, key: Seq<char>, n: int) -> Seq<u64>
    decreases n,
{
    if n <= 0 {
        Seq::empty()
    } else {
        matching_ids(ids, strs, key, n - 1) + if strs[n - 1] == key {
            seq![ids[n - 1]]
        } else {
            Seq::empty()
        }
    }
}

/// One of two strings occurs inside the other.
pub open spec fn substring_related(a: Seq<char>, b: Seq<char>) -> bool {
    seq_contains(a, b) || seq_contains(b, a)
}

/// `found` lists, strictly ascending, exactly the ids whose normalized
/// name is substring-related to `norm`.
pub open spec fn substring_ids(found: Seq<u64>, ids: Seq<u64>, norms: Seq<Seq<char>>, norm: Seq<char>) -> bool {
    &&& forall|i: int, j: int| 0 <= i < j < found.len() ==> found[i] < found[j]
    &&& forall|id: u64|
        found.contains(id) <==> exists|k: int|
            0 <= k < ids.len() && k < norms.len() && ids[k] == id && substring_related(norms[k], norm)
}

/// Every stop's id and name, with each name's normalized form and token
/// key worked out once, for the candidate lookup cascade.
pub struct StopNameIndex {
    ids: Vec<u64>,
    names: Vec<Vec<char>>,
    norms: Vec<Vec<char>>,
    keys: Vec<Vec<char>>,
}

impl StopNameIndex {
    /// The stop ids, in the order the index was built from.
    pub closed spec fn spec_ids(&self) -> Seq<u64> {
        self.ids@
    }

    /// The stop names, aligned with [`Self::spec_ids`].
    pub closed spec fn spec_names(&self) -> Seq<Seq<char>> {
        self.names@.map_values(|v: Vec<char>| v@)
    }

    #[verifier::type_invariant]
    closed spec fn inv(&self) -> bool {
        &&& self.names@.len() == self.ids@.len()
        &&& self.norms@.map_values(|v: Vec<char>| v@) == self.spec_names().map_values(|n: Seq<char>| strip_separators(n))
        &&& self.keys@.map_values(|v: Vec<char>| v@) == self.spec_names().map_values(|n: Seq<char>| token_key(n))
    }
}

/// What the lookup cascade answers for `name` over the stops `ids`/`names`
/// (see [`StopNameIndex::candidates_for`]).
pub open spec fn candidates_ok(ids: Seq<u64>, names: Seq<Seq<char>>, name: Seq<char>, found: Seq<u64>, via_substring: bool) -> bool {
    let n = ids.len() as int;
    let exact = matching_ids(ids, names, name, n);
    let norm = strip_separators(name);
    let norms = names.map_values(|s: Seq<char>| strip_separators(s));
    let normed = matching_ids(ids, norms, norm, n);
    let keyed = matching_ids(ids, names.map_values(|s: Seq<char>| token_key(s)), token_key(name), n);
    if exact.len() > 0 {
        found == exact && !via_substring
    } else if normed.len() > 0 {
        found == normed && !via_substring
    } else if keyed.len() > 0 {
        found == keyed && !via_substring
    } else if norm.len() < 2 {
        found.len() == 0 && !via_substring
    } else {
        substring_ids(found, ids, norms, norm) && via_substring == (found.len() > 0)
    }
}

fn ids_matching(ids: &Vec<u64>, strs: &Vec<Vec<char>>, key: &[char]) -> (r: Vec<u64>)
    requires
        strs@.len() == ids@.len(),
    ensures
        r@ == matching_ids(ids@, strs@.map_values(|v: Vec<char>| v@), key@, ids@.len() as int),
{
    let ghost sv = strs@.map_values(|v: Vec<char>| v@);
    let mut r: Vec<u64> = Vec::new();
    let mut i: usize = 0;
    while i < ids.len()
        invariant
            i <= ids@.len(),
            strs@.len() == ids@.len(),
            sv == strs@.map_values(|v: Vec<char>| v@),
            r@ == matching_ids(ids@, sv, key@, i as int),
        decreases ids.len() - i,
    {
        if chars_eq(strs[i].as_slice(), key) {
            r.push(ids[i]);
        }
        assert(r@ =~= matching_ids(ids@, sv, key@, i + 1));
        i += 1;
    }
    r
}

impl StopNameIndex {
    /// Candidate lookup cascade for one route-stop name, widening tier by
    /// tier only when the previous tier found nothing: exact name, name
    /// with separators stripped, same token set in any order, and finally
    /// (for a stripped name of at least two characters) any stop whose
    /// stripped name contains it or is contained in it -- those ids
    /// ascending and without repeats, flagged as a substring match.
    pub fn candidates_for(&self, name: &str) -> (r: (Vec<u64>, bool))
        ensures
            candidates_ok(self.spec_ids(), self.spec_names(), name@, r.0@, r.1),
    {
        proof {
            use_type_invariant(self);
            assert(self.norms@.map_values(|v: Vec<char>| v@).len() == self.norms@.len());
            assert(self.keys@.map_values(|v: Vec<char>| v@).len() == self.keys@.len());
            assert(self.spec_names().len() == self.names@.len());
        }
        let q = chars_of(name);
        let exact = ids_matching(&self.ids, &self.names, q.as_slice());
        if exact.len() > 0 {
            return (exact, false);
        }
        let norm = normalize_name(q.as_slice());
        let normed = ids_matching(&self.ids, &self.norms, norm.as_slice());
        if normed.len() > 0 {
            return (normed, false);
        }
        let key = token_set_key(q.as_slice());
        let keyed = ids_matching(&self.ids, &self.keys, key.as_slice());
        if keyed.len() > 0 {
            return (keyed, false);
        }
        if norm.len() < 2 {
            return (Vec::new(), false);
        }
        let ghost nv = self.norms@.map_values(|v: Vec<char>| v@);
        let mut found: Vec<u64> = Vec::new();
        let mut i: usize = 0;
        while i < self.ids.len()
            invariant
                i <= self.ids@.len(),
                self.norms@.len() == self.ids@.len(),
                nv == self.norms@.map_values(|v: Vec<char>| v@),
                forall|a: int, b: int| 0 <= a < b < found@.len() ==> found@[a] < found@[b],
                forall|id: u64|
                    found@.contains(id) <==> exists|k: int|
                        0 <= k < i && self.ids@[k] == id && substring_related(nv[k], norm@),
            decreases self.ids.len() - i,
        {
            let sn = &self.norms[i];
            assert(sn@ == nv[i as int]);
            let ghost fv = found@;
            let related = contains_chars(sn.as_slice(), norm.as_slice()) || contains_chars(norm.as_slice(), sn.as_slice());
            if related {
                let id = self.ids[i];
                let mut p: usize = 0;
                while p < found.len() && found[p] < id
                    invariant
                        p <= found@.len(),
                        fv == found@,
                        forall|k: int| 0 <= k < p ==> fv[k] < id,
                    decreases found.len() - p,
                {
                    p += 1;
                }
                if p < found.len() && found[p] == id {
                    assert(fv[p as int] == id);
                } else {
                    found.insert(p, id);
                    proof {
                        assert(found@ =~= fv.take(p as int).push(id) + fv.skip(p as int));
                        assert forall|a: int, b: int| 0 <= a < b < found@.len() implies found@[a] < found@[b] by {
                            if b < p {
                            } else if b == p {
                            } else if a < p {
                                assert(found@[b] == fv[b - 1]);
                                assert(fv[p as int] > id);
                                if b - 1 > p {
                                    assert(fv[p as int] < fv[b - 1]);
                                }
                            } else if a == p {
                                assert(found@[b] == fv[b - 1]);
                                assert(fv[p as int] > id);
                                if b - 1 > p {
                                    assert(fv[p as int] < fv[b - 1]);
                                }
                            } else {
                                assert(found@[a] == fv[a - 1] && found@[b] == fv[b - 1]);
                            }
                        }
                    }
                }
                proof {
                    assert forall|x: u64| found@.contains(x) <==> (fv.contains(x) || x == id) by {
                        if fv.contains(x) {
                            let j = choose|j: int| 0 <= j < fv.len() && fv[j] == x;
                            if found@ == fv {
                            } else if j < p {
                                assert(found@[j] == x);
                            } else {
                                assert(found@[j + 1] == x);
                            }
                        }
                        if x == id {
                            assert(found@[p as int] == x);
                        }
                        if found@.contains(x) && found@ != fv {
                            let j = choose|j: int| 0 <= j < found@.len() && found@[j] == x;
                            if j < p {
                                assert(fv[j] == x);
                            } else if j > p {
                                assert(fv[j - 1] == x);
                            }
                        }
                    }
                    assert forall|x: u64|
                        found@.contains(x) <==> exists|k: int|
                            0 <= k < i + 1 && self.ids@[k] == x && substring_related(nv[k], norm@) by {
                        if found@.contains(x) && !fv.contains(x) {
                            assert(x == id && self.ids@[i as int] == x && substring_related(nv[i as int], norm@));
                        }
                        if fv.contains(x) {
                            let k = choose|k: int| 0 <= k < i && self.ids@[k] == x && substring_related(nv[k], norm@);
                            assert(0 <= k < i + 1 && self.ids@[k] == x && substring_related(nv[k], norm@));
                        }
                        if exists|k: int| 0 <= k < i + 1 && self.ids@[k] == x && substring_related(nv[k], norm@) {
                            let k = choose|k: int| 0 <= k < i + 1 && self.ids@[k] == x && substring_related(nv[k], norm@);
                            if k < i {
                                assert(fv.contains(x));
                            }
                        }
                    }
                }
            } else {
                proof {
                    assert forall|x: u64|
                        found@.contains(x) <==> exists|k: int|
                            0 <= k < i + 1 && self.ids@[k] == x && substring_related(nv[k], norm@) by {
                        if exists|k: int| 0 <= k < i + 1 && self.ids@[k] == x && substring_related(nv[k], norm@) {
                            let k = choose|k: int| 0 <= k < i + 1 && self.ids@[k] == x && substring_related(nv[k], norm@);
                            assert(k != i);
                        }
                    }
                }
            }
            i += 1;
        }
        proof {
            assert(nv == self.spec_names().map_values(|n: Seq<char>| strip_separators(n)));
        }
        let via = found.len() > 0;
        (found, via)
    }
}

/// Indexes every stop `(bstopid, name)` for [`StopNameIndex::candidates_for`].
pub fn build_name_index(stops: &[(u64, String)]) -> (r: StopNameIndex)
    ensures
        r.spec_ids() == stops@.map_values(|s: (u64, String)| s.0),
        r.spec_names() == stops@.map_values(|s: (u64, String)| s.1@),
{
    let mut ids: Vec<u64> = Vec::new();
    let mut names: Vec<Vec<char>> = Vec::new();
    let mut norms: Vec<Vec<char>> = Vec::new();
    let mut keys: Vec<Vec<char>> = Vec::new();
    let mut i: usize = 0;
    while i < stops.len()
        invariant
            i <= stops@.len(),
            ids@ == stops@.take(i as int).map_values(|s: (u64, String)| s.0),
            names@.map_values(|v: Vec<char>| v@) == stops@.take(i as int).map_values(|s: (u64, String)| s.1@),
            norms@.map_values(|v: Vec<char>| v@) == names@.map_values(|v: Vec<char>| v@).map_values(
                |n: Seq<char>| strip_separators(n),
            ),
            keys@.map_values(|v: Vec<char>| v@) == names@.map_values(|v: Vec<char>| v@).map_values(
                |n: Seq<char>| token_key(n),
            ),
        decreases stops.len() - i,
    {
        let name = chars_of(stops[i].1.as_str());
        let norm = normalize_name(name.as_slice());
        let key = token_set_key(name.as_slice());
        let ghost old_names = names@.map_values(|v: Vec<char>| v@);
        let ghost old_norms = norms@.map_values(|v: Vec<char>| v@);
        let ghost old_keys = keys@.map_values(|v: Vec<char>| v@);
        assert(name@ == stops@[i as int].1@);
        ids.push(stops[i].0);
        names.push(name);
        norms.push(norm);
        keys.push(key);
        proof {
            assert(stops@.take(i + 1) =~= stops@.take(i as int).push(stops@[i as int]));
            assert(ids@ =~= stops@.take(i + 1).map_values(|s: (u64, String)| s.0));
            assert(names@.map_values(|v: Vec<char>| v@) =~= old_names.push(name@));
            assert(norms@.map_values(|v: Vec<char>| v@) =~= old_norms.push(norm@));
            assert(keys@.map_values(|v: Vec<char>| v@) =~= old_keys.push(key@));
            assert(names@.map_values(|v: Vec<char>| v@) =~= stops@.take(i + 1).map_values(|s: (u64, String)| s.1@));
            assert(norms@.map_values(|v: Vec<char>| v@) =~= names@.map_values(|v: Vec<char>| v@).map_values(
                |n: Seq<char>| strip_separators(n),
            ));
            assert(keys@.map_values(|v: Vec<char>| v@) =~= names@.map_values(|v: Vec<char>| v@).map_values(
                |n: Seq<char>| token_key(n),
            ));
        }
        i += 1;
    }
    assert(stops@.take(stops.len() as int) =~= stops@);
    StopNameIndex { ids, names, norms, keys }
}

/// A route stop that has at least one candidate: its position among the
/// route's stops, its candidates and whether they came from the substring
/// fallback.
pub struct PlaceableStop {
    pub index: usize,
    pub candidates: Vec<u64>,
    pub via_substring: bool,
}

/// The placeable route stops among the first `n`, given each one's
/// lookup result `c[j]`, in route order.
pub open spec fn placeable_of(c: Seq<(Seq<u64>, bool)>, n: int) -> Seq<(int, Seq<u64>, bool)>
    decreases n,
{
    if n <= 0 {
        Seq::empty()
    } else {
        placeable_of(c, n - 1) + if c[n - 1].0.len() > 0 {
            seq![(n - 1, c[n - 1].0, c[n - 1].1)]
        } else {
            Seq::empty()
        }
    }
}

/// The positions among the first `n` route stops with no candidate.
pub open spec fn no_match_of(c: Seq<(Seq<u64>, bool)>, n: int) -> Seq<int>
    decreases n,
{
    if n <= 0 {
        Seq::empty()
    } else {
        no_match_of(c, n - 1) + if c[n - 1].0.len() == 0 {
            seq![n - 1]
        } else {
            Seq::empty()
        }
    }
}

/// An unplaced stop's fields, by their characters.
pub open spec fn unplaced_view(u: UnplacedStop) -> (u32, Seq<char>, Seq<char>, UnplacedReason) {
    (u.seq, u.stop_code@, u.stop_name@, u.reason)
}

/// A placeable stop's fields.
pub open spec fn placeable_view(p: PlaceableStop) -> (int, Seq<u64>, bool) {
    (p.index as int, p.candidates@, p.via_substring)
}

/// Looks up every route stop's candidates by name (see
/// [`StopNameIndex::candidates_for`]) and splits the route: the stops with
/// candidates, in route order, and those with none, reported unplaced
/// (no name match) in route order.
pub fn partition_route_stops(route_stops: &[RouteStop], index: &StopNameIndex) -> (r: (Vec<PlaceableStop>, Vec<UnplacedStop>))
    ensures
        exists|c: Seq<(Seq<u64>, bool)>|
            {
                &&& c.len() == route_stops@.len()
                &&& forall|j: int|
                    0 <= j < c.len() ==> candidates_ok(
                        index.spec_ids(),
                        index.spec_names(),
                        (#[trigger] route_stops@[j]).stop_name@,
                        c[j].0,
                        c[j].1,
                    )
                &&& r.0@.map_values(|p: PlaceableStop| placeable_view(p)) == placeable_of(c, c.len() as int)
                &&& r.1@.map_values(|u: UnplacedStop| unplaced_view(u)) == no_match_of(c, c.len() as int).map_values(
                    |j: int|
                        (
                            route_stops@[j].seq,
                            route_stops@[j].stop_code@,
                            route_stops@[j].stop_name@,
                            UnplacedReason::NoNameMatch,
                        ),
                )
            },
{
    let mut placeable: Vec<PlaceableStop> = Vec::new();
    let mut unplaced: Vec<UnplacedStop> = Vec::new();
    let ghost mut c: Seq<(Seq<u64>, bool)> = Seq::empty();
    let mut j: usize = 0;
    while j < route_stops.len()
        invariant
            j <= route_stops@.len(),
            c.len() == j,
            forall|k: int|
                0 <= k < c.len() ==> candidates_ok(
                    index.spec_ids(),
                    index.spec_names(),
                    (#[trigger] route_stops@[k]).stop_name@,
                    c[k].0,
                    c[k].1,
                ),
            placeable@.map_values(|p: PlaceableStop| placeable_view(p)) == placeable_of(c, j as int),
            unplaced@.map_values(|u: UnplacedStop| unplaced_view(u)) == no_match_of(c, j as int).map_values(
                |k: int|
                    (
                        route_stops@[k].seq,
                        route_stops@[k].stop_code@,
                        route_stops@[k].stop_name@,
                        UnplacedReason::NoNameMatch,
                    ),
            ),
        decreases route_stops.len() - j,
    {
        let rs = &route_stops[j];
        let (cands, via) = index.candidates_for(rs.stop_name.as_str());
        let ghost old_c = c;
        let ghost old_p = placeable@.map_values(|p: PlaceableStop| placeable_view(p));
        let ghost old_u = unplaced@.map_values(|u: UnplacedStop| unplaced_view(u));
        proof {
            c = c.push((cands@, via));
            assert(placeable_of(c, j as int) =~= placeable_of(old_c, j as int)) by {
                lemma_placeable_prefix(old_c, c, j as int);
            }
            assert(no_match_of(c, j as int) =~= no_match_of(old_c, j as int)) by {
                lemma_no_match_prefix(old_c, c, j as int);
            }
        }
        if cands.len() == 0 {
            let u = UnplacedStop {
                seq: rs.seq,
                stop_code: rs.stop_code.clone(),
                stop_name: rs.stop_name.clone(),
                reason: UnplacedReason::NoNameMatch,
            };
            let ghost uv = unplaced_view(u);
            unplaced.push(u);
            proof {
                assert(unplaced@.map_values(|u: UnplacedStop| unplaced_view(u)) =~= old_u.push(uv));
                assert(no_match_of(c, j + 1) == no_match_of(c, j as int).push(j as int));
                assert(uv == (
                    route_stops@[j as int].seq,
                    route_stops@[j as int].stop_code@,
                    route_stops@[j as int].stop_name@,
                    UnplacedReason::NoNameMatch,
                ));
            }
        } else {
            placeable.push(PlaceableStop { index: j, candidates: cands, via_substring: via });
        }
        proof {
            assert(placeable@.map_values(|p: PlaceableStop| placeable_view(p)) =~= placeable_of(c, j + 1));
            assert(unplaced@.map_values(|u: UnplacedStop| unplaced_view(u)) =~= no_match_of(c, j + 1).map_values(
                |k: int|
                    (
                        route_stops@[k].seq,
                        route_stops@[k].stop_code@,
                        route_stops@[k].stop_name@,
                        UnplacedReason::NoNameMatch,
                    ),
            ));
        }
        j += 1;
    }
    (placeable, unplaced)
}

proof fn lemma_placeable_prefix(a: Seq<(Seq<u64>, bool)>, b: Seq<(Seq<u64>, bool)>, n: int)
    requires
        0 <= n <= a.len(),
        n <= b.len(),
        forall|k: int| 0 <= k < n ==> a[k] == b[k],
    ensures
        placeable_of(a, n) == placeable_of(b, n),
    decreases n,
{
    if n > 0 {
        lemma_placeable_prefix(a, b, n - 1);
    }
}

proof fn lemma_no_match_prefix(a: Seq<(Seq<u64>, bool)>, b: Seq<(Seq<u64>, bool)>, n: int)
    requires
        0 <= n <= a.len(),
        n <= b.len(),
        forall|k: int| 0 <= k < n ==> a[k] == b[k],
    ensures
        no_match_of(a, n) == no_match_of(b, n),
    decreases n,
{
    if n > 0 {
        lemma_no_match_prefix(a, b, n - 1);
    }
}

/// A matched stop's fields, by their characters.
pub open spec fn matched_view(m: MatchedStop) -> (u32, Seq<char>, Seq<char>, u64, Confidence, usize, bool) {
    (m.seq, m.stop_code@, m.stop_name@, m.bstopid, m.confidence, m.candidate_count, m.via_substring)
}

/// The matched stops of the first `n` placeable stops when the route has
/// no geometry to choose by: each unambiguous one is placed (confidence
/// `High`, or `Low` for a substring match).
pub open spec fn matched_without_geometry(rs: Seq<RouteStop>, pl: Seq<(int, Seq<u64>, bool)>, n: int) -> Seq<(u32, Seq<char>, Seq<char>, u64, Confidence, usize, bool)>
    decreases n,
{
    if n <= 0 {
        Seq::empty()
    } else {
        let p = pl[n - 1];
        let s = rs[p.0];
        matched_without_geometry(rs, pl, n - 1) + if p.1.len() == 1 {
            seq![(s.seq, s.stop_code@, s.stop_name@, p.1[0], if p.2 { Confidence::Low } else { Confidence::High }, 1usize, p.2)]
        } else {
            Seq::empty()
        }
    }
}

/// The ambiguous ones among the first `n` placeable stops, reported
/// unplaced for want of route context.
pub open spec fn ambiguous_without_geometry(rs: Seq<RouteStop>, pl: Seq<(int, Seq<u64>, bool)>, n: int) -> Seq<(u32, Seq<char>, Seq<char>, UnplacedReason)>
    decreases n,
{
    if n <= 0 {
        Seq::empty()
    } else {
        let p = pl[n - 1];
        let s = rs[p.0];
        ambiguous_without_geometry(rs, pl, n - 1) + if p.1.len() == 1 {
            Seq::empty()
        } else {
            seq![(s.seq, s.stop_code@, s.stop_name@, UnplacedReason::AmbiguousNoRouteContext { candidates: p.1.len() as usize })]
        }
    }
}

/// Resolves a route that has fewer than two placeable stops (so no path
/// geometry to disambiguate against): places each stop with a single
/// candidate and appends each ambiguous one to `unplaced`.
pub fn match_without_geometry(
    route_stops: &[RouteStop],
    placeable: &[PlaceableStop],
    unplaced: Vec<UnplacedStop>,
) -> (r: (Vec<MatchedStop>, Vec<UnplacedStop>))
    requires
        forall|k: int| 0 <= k < placeable@.len() ==> (#[trigger] placeable@[k]).index < route_stops@.len(),
    ensures
        r.0@.map_values(|m: MatchedStop| matched_view(m)) == matched_without_geometry(
            route_stops@,
            placeable@.map_values(|p: PlaceableStop| placeable_view(p)),
            placeable@.len() as int,
        ),
        r.1@.map_values(|u: UnplacedStop| unplaced_view(u)) == unplaced@.map_values(|u: UnplacedStop| unplaced_view(u))
            + ambiguous_without_geometry(
            route_stops@,
            placeable@.map_values(|p: PlaceableStop| placeable_view(p)),
            placeable@.len() as int,
        ),
{
    let ghost pv = placeable@.map_values(|p: PlaceableStop| placeable_view(p));
    let ghost u0 = unplaced@.map_values(|u: UnplacedStop| unplaced_view(u));
    let mut unplaced = unplaced;
    let mut matched: Vec<MatchedStop> = Vec::new();
    let mut i: usize = 0;
    while i < placeable.len()
        invariant
            i <= placeable@.len(),
            pv == placeable@.map_values(|p: PlaceableStop| placeable_view(p)),
            forall|k: int| 0 <= k < placeable@.len() ==> (#[trigger] placeable@[k]).index < route_stops@.len(),
            matched@.map_values(|m: MatchedStop| matched_view(m)) == matched_without_geometry(route_stops@, pv, i as int),
            unplaced@.map_values(|u: UnplacedStop| unplaced_view(u)) == u0 + ambiguous_without_geometry(route_stops@, pv, i as int),
        decreases placeable.len() - i,
    {
        let p = &placeable[i];
        let rs = &route_stops[p.index];
        let ghost m0 = matched@.map_values(|m: MatchedStop| matched_view(m));
        let ghost un0 = unplaced@.map_values(|u: UnplacedStop| unplaced_view(u));
        if p.candidates.len() == 1 {
            matched.push(
                MatchedStop {
                    seq: rs.seq,
                    stop_code: rs.stop_code.clone(),
                    stop_name: rs.stop_name.clone(),
                    bstopid: p.candidates[0],
                    confidence: if p.via_substring {
                        Confidence::Low
                    } else {
                        Confidence::High
                    },
                    candidate_count: 1,
                    via_substring: p.via_substring,
                },
            );
            assert(matched@.map_values(|m: MatchedStop| matched_view(m)) =~= matched_without_geometry(route_stops@, pv, i + 1));
            assert(unplaced@.map_values(|u: UnplacedStop| unplaced_view(u)) =~= u0 + ambiguous_without_geometry(route_stops@, pv, i + 1));
        } else {
            let u = UnplacedStop {
                seq: rs.seq,
                stop_code: rs.stop_code.clone(),
                stop_name: rs.stop_name.clone(),
                reason: UnplacedReason::AmbiguousNoRouteContext { candidates: p.candidates.len() },
            };
            let ghost uv = unplaced_view(u);
            unplaced.push(u);
            assert(unplaced@.map_values(|u: UnplacedStop| unplaced_view(u)) =~= un0.push(uv));
            assert(pv[i as int] == placeable_view(placeable@[i as int]));
            assert(uv == (rs.seq, rs.stop_code@, rs.stop_name@, UnplacedReason::AmbiguousNoRouteContext { candidates: pv[i as int].1.len() as usize }));
            assert(matched@.map_values(|m: MatchedStop| matched_view(m)) =~= matched_without_geometry(route_stops@, pv, i + 1));
            assert(unplaced@.map_values(|u: UnplacedStop| unplaced_view(u)) =~= u0 + ambiguous_without_geometry(route_stops@, pv, i + 1));
        }
        i += 1;
    }
    (matched, unplaced)
}

} // verus!
