//! The city's bus stop table as the matching pass sees it: stop ids and
//! names (positions stay with the caller), and the check that the stop
//! table has the fields they are read from.

pub mod matching;

use crate::roads::network::{debug_list_of, field_names_of, first_missing, first_missing_field, names_of};
use crate::roads::shapefile::DbfTable;
use crate::text::{push_str, string_of};
use vstd::prelude::*;

verus! {

broadcast use vstd::string::group_string_axioms;

/// The stop-table fields the stops are read from.
pub open spec fn required_stop_fields() -> Seq<Seq<char>> {
    seq!["bstopid"@, "bstopnm"@, "stoptype"@, "arsno"@]
}

/// The message for a stop table missing a required field.
pub open spec fn stop_field_message(field: Seq<char>, have: Seq<Seq<char>>) -> Seq<char> {
    "bus stop .dbf is missing field "@ + field + " (실측: 필드 arsno/bstopid/bstopnm/gpsx/gpsy/stoptype 확인됨). Actual fields: "@
        + debug_list_of(have)
}

/// Checks that the stop table has every field the stops are read from;
/// the error names the first missing one and lists the fields it has.
pub fn verify_fields(dbf: &DbfTable) -> (r: Result<(), String>)
    ensures
        ({
            let have = field_names_of(dbf.spec_fields());
            let i = first_missing(required_stop_fields(), have);
            &&& r is Ok <==> i >= 4
            &&& r matches Err(e) ==> e@ == stop_field_message(required_stop_fields()[i], have)
        }),
{
    let names = dbf.field_names();
    assert(names_of(names@) =~= field_names_of(dbf.spec_fields()));
    let required: [&str; 4] = ["bstopid", "bstopnm", "stoptype", "arsno"];
    proof {
        reveal_strlit("bstopid");
        reveal_strlit("bstopnm");
        reveal_strlit("stoptype");
        reveal_strlit("arsno");
    }
    assert(names_of(required@) =~= required_stop_fields());
    let i = first_missing_field(&names, &required);
    if i < 4 {
        let mut s = string_of("bus stop .dbf is missing field ");
        push_str(&mut s, required[i]);
        push_str(&mut s, " (실측: 필드 arsno/bstopid/bstopnm/gpsx/gpsy/stoptype 확인됨). Actual fields: ");
        let list = crate::roads::network::debug_names(&names);
        push_str(&mut s, list.as_str());
        assert(required@[i as int]@ == required_stop_fields()[i as int]);
        assert(s@ =~= stop_field_message(required_stop_fields()[i as int], field_names_of(dbf.spec_fields())));
        return Err(s);
    }
    Ok(())
}

} // verus!
