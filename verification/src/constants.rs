//! Labels and limits that the whole library goes by.
use vstd::prelude::*;
use vstd::string::*;

verus! {

/// The most operators whose coalitions can be enumerated.
pub const MAX_OPERATORS: usize = 20;

/// The operator of the public network, a member of every coalition.
pub const OP_PUBLIC: &'static str = "Public";

/// The operator of devices that take part in every coalition.
pub const OP_PRIVATE: &'static str = "Private";

/// The operator that stands for all but the one in focus.
pub const OP_OTHERS: &'static str = "Others";

/// How many characters of a device's name are the code of its city.
pub const CITY_PREFIX_LEN: usize = 3;

/// How the name of a city's public switch ends.
pub const PUBLIC_SWITCH_SUFFIX: &'static str = "00";

/// The code of the city in a device's name, where the name is long enough.
pub open spec fn city_code(device: Seq<char>) -> Option<Seq<char>> {
    if device.len() >= CITY_PREFIX_LEN {
        Some(device.take(CITY_PREFIX_LEN as int))
    } else {
        None
    }
}

/// The code of the city in a device's name, where the name is long enough.
pub fn city_prefix(device: &str) -> (r: Option<&str>)
    ensures
        r is Some <==> city_code(device@) is Some,
        r matches Some(code) ==> city_code(device@) == Some(code@),
{
    if device.unicode_len() < CITY_PREFIX_LEN {
        return None;
    }
    let code = device.substring_char(0, CITY_PREFIX_LEN);
    assert(code@ =~= device@.take(CITY_PREFIX_LEN as int));
    Some(code)
}

} // verus!
