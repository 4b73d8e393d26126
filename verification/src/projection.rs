//! The map projections a world can be generated in, and their textual names
//! as accepted on the command line.

use crate::text::{push_char, push_chars, push_str, str_eq, string_of};
use vstd::prelude::*;

verus! {

broadcast use vstd::string::group_string_axioms;

/// Available map projection variants.
#[derive(Debug, Clone, Copy, PartialEq, Eq, Structural)]
pub enum ProjectionKind {
    /// Web Mercator (EPSG:3857-like) projection with a local origin offset.
    WebMercator,
    /// Simple local coordinate system (no geographic projection).
    Local,
    /// Korea Central Belt (EPSG:5186) Transverse Mercator.
    KoreaTm,
}

/// The canonical name of each projection.
pub open spec fn kind_name(k: ProjectionKind) -> Seq<char> {
    match k {
        ProjectionKind::WebMercator => "web_mercator"@,
        ProjectionKind::Local => "local"@,
        ProjectionKind::KoreaTm => "korea_tm"@,
    }
}

/// Every character of `s` is ASCII.
pub open spec fn is_ascii_seq(s: Seq<char>) -> bool {
    forall|i: int| 0 <= i < s.len() ==> (s[i] as u32) < 128
}

/// `s` with `A`..=`Z` mapped to `a`..=`z` and every other character kept.
pub open spec fn ascii_lower(s: Seq<char>) -> Seq<char> {
    Seq::new(
        s.len(),
        |i: int|
            if 'A' <= s[i] && s[i] <= 'Z' {
                ((s[i] as u32) + 32) as char
            } else {
                s[i]
            },
    )
}

/// What `str::to_lowercase` returns for the characters `s` (Unicode's
/// lowercase mapping).
pub uninterp spec fn lowercase_of(s: Seq<char>) -> Seq<char>;

/// `str::to_lowercase`. Its result is named [`lowercase_of`] of the input;
/// on ASCII input, where Unicode's lowercase mapping sends `A`..=`Z` to
/// `a`..=`z` and keeps every other character, the result is stated exactly.
/// What it does to other characters is left unsaid.
#[verifier::external_body]
fn to_lowercase(s: &str) -> (r: String)
    ensures
        r@ == lowercase_of(s@),
        is_ascii_seq(s@) ==> r@ == ascii_lower(s@),
{
    s.to_lowercase()
}

/// The projection that an already-lowercased name selects, if any.
pub open spec fn kind_of_lowered(l: Seq<char>) -> Option<ProjectionKind> {
    if l == "web_mercator"@ || l == "webmercator"@ || l == "mercator"@ {
        Some(ProjectionKind::WebMercator)
    } else if l == "local"@ {
        Some(ProjectionKind::Local)
    } else if l == "korea_tm"@ || l == "koreatm"@ || l == "epsg:5186"@ || l == "epsg5186"@ {
        Some(ProjectionKind::KoreaTm)
    } else {
        None
    }
}

/// The message given for a name that selects no projection.
pub open spec fn unknown_kind_message(l: Seq<char>) -> Seq<char> {
    "unknown projection kind: '"@ + l + seq!['\'']
}

/// What parsing gives for the lowercased name `l`.
pub open spec fn parse_lowered(l: Seq<char>) -> Result<ProjectionKind, Seq<char>> {
    match kind_of_lowered(l) {
        Some(k) => Ok(k),
        None => Err(unknown_kind_message(l)),
    }
}

/// The parse result with the error message taken by its characters.
pub open spec fn result_view(r: Result<ProjectionKind, String>) -> Result<ProjectionKind, Seq<char>> {
    match r {
        Ok(k) => Ok(k),
        Err(e) => Err(e@),
    }
}

impl ProjectionKind {
    /// The canonical name, as `Display` would print it.
    pub fn to_string(&self) -> (s: String)
        ensures
            s@ == kind_name(*self),
    {
        match self {
            ProjectionKind::WebMercator => string_of("web_mercator"),
            ProjectionKind::Local => string_of("local"),
            ProjectionKind::KoreaTm => string_of("korea_tm"),
        }
    }

    /// Parses a name that has already been lowercased.
    pub fn from_lowercase(lowered: &str) -> (r: Result<ProjectionKind, String>)
        ensures
            result_view(r) == parse_lowered(lowered@),
    {
        if str_eq(lowered, "web_mercator") || str_eq(lowered, "webmercator") || str_eq(
            lowered,
            "mercator",
        ) {
            Ok(ProjectionKind::WebMercator)
        } else if str_eq(lowered, "local") {
            Ok(ProjectionKind::Local)
        } else if str_eq(lowered, "korea_tm") || str_eq(lowered, "koreatm") || str_eq(
            lowered,
            "epsg:5186",
        ) || str_eq(lowered, "epsg5186") {
            Ok(ProjectionKind::KoreaTm)
        } else {
            let mut msg = String::new();
            push_str(&mut msg, "unknown projection kind: '");
            push_str(&mut msg, lowered);
            push_char(&mut msg, '\'');
            assert(msg@ =~= unknown_kind_message(lowered@));
            Err(msg)
        }
    }

    /// Parses a projection name case-insensitively: the name is lowercased
    /// first, and the error message quotes the lowercased name.
    pub fn parse_name(s: &str) -> (r: Result<ProjectionKind, String>)
        ensures
            result_view(r) == parse_lowered(lowercase_of(s@)),
            is_ascii_seq(s@) ==> result_view(r) == parse_lowered(ascii_lower(s@)),
    {
        let lowered = to_lowercase(s);
        ProjectionKind::from_lowercase(lowered.as_str())
    }
}

impl std::str::FromStr for ProjectionKind {
    type Err = String;

    fn from_str(s: &str) -> (r: Result<Self, Self::Err>)
        ensures
            result_view(r) == parse_lowered(lowercase_of(s@)),
            is_ascii_seq(s@) ==> result_view(r) == parse_lowered(ascii_lower(s@)),
    {
        ProjectionKind::parse_name(s)
    }
}

/// Every projection's canonical name is plain ASCII and parses back to that
/// projection.
pub proof fn lemma_name_round_trip(k: ProjectionKind)
    ensures
        is_ascii_seq(kind_name(k)),
        parse_lowered(ascii_lower(kind_name(k))) == Ok::<ProjectionKind, Seq<char>>(k),
{
    reveal_strlit("web_mercator");
    reveal_strlit("webmercator");
    reveal_strlit("mercator");
    reveal_strlit("local");
    reveal_strlit("korea_tm");
    reveal_strlit("koreatm");
    reveal_strlit("epsg:5186");
    reveal_strlit("epsg5186");
    let n = kind_name(k);
    assert(ascii_lower(n) =~= n);
    match k {
        ProjectionKind::WebMercator => {},
        ProjectionKind::Local => {
            assert(n != "web_mercator"@ && n != "webmercator"@ && n != "mercator"@) by {
                assert(n.len() != "web_mercator"@.len());
                assert(n.len() != "webmercator"@.len());
                assert(n[0] != "mercator"@[0]);
            }
        },
        ProjectionKind::KoreaTm => {
            assert(n != "web_mercator"@ && n != "webmercator"@ && n != "mercator"@ && n != "local"@) by {
                assert(n.len() != "web_mercator"@.len());
                assert(n.len() != "webmercator"@.len());
                assert(n[0] != "mercator"@[0]);
                assert(n.len() != "local"@.len());
            }
        },
    }
}

} // verus!
