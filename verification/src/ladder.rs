//! The robustness-ladder grid: which coding profiles, carriers and placements
//! are benchmarked together.
use vstd::prelude::*;
use vstd::string::StringExecFns;
use crate::ecc::Profile;
use crate::placement::Placement;
use crate::text::str_eq;

verus! {

/// Coding profiles under test, with their report labels.
pub fn all_profiles() -> (v: Vec<(String, Profile)>)
    ensures
        v@.len() == 3,
        v@[0].0@ == "Repetition8"@ && v@[0].1 == Profile::Repetition8,
        v@[1].0@ == "Bch{t=3}"@ && v@[1].1 == (Profile::Bch { t: 3 }),
        v@[2].0@ == "Bch{t=2}"@ && v@[2].1 == (Profile::Bch { t: 2 }),
{
    let mut v: Vec<(String, Profile)> = Vec::new();
    v.push((String::from_str("Repetition8"), Profile::Repetition8));
    v.push((String::from_str("Bch{t=3}"), Profile::Bch { t: 3 }));
    v.push((String::from_str("Bch{t=2}"), Profile::Bch { t: 2 }));
    v
}

/// Carriers under test (name, enabled).
pub fn carriers() -> (v: Vec<(&'static str, bool)>)
    ensures
        v@.len() == 2,
        v@[0].0@ == "dct"@ && v@[0].1,
        v@[1].0@ == "dwt"@ && v@[1].1,
{
    let mut v: Vec<(&'static str, bool)> = Vec::new();
    v.push(("dct", true));
    v.push(("dwt", true));
    v
}

/// Placements tried on a carrier: all three on DCT, the skeleton elsewhere.
pub fn placements_for(carrier: &str) -> (v: Vec<(&'static str, Placement)>)
    ensures
        carrier@ == "dct"@ ==> v@.len() == 3 && v@[0].0@ == "skeleton"@ && v@[0].1 == Placement::Skeleton
            && v@[1].0@ == "prng"@ && v@[1].1 == Placement::Prng && v@[2].0@ == "edge-density"@ && v@[2].1
            == Placement::Edge,
        carrier@ != "dct"@ ==> v@.len() == 1 && v@[0].0@ == "skeleton"@ && v@[0].1 == Placement::Skeleton,
{
    let mut v: Vec<(&'static str, Placement)> = Vec::new();
    if str_eq(carrier, "dct") {
        v.push(("skeleton", Placement::Skeleton));
        v.push(("prng", Placement::Prng));
        v.push(("edge-density", Placement::Edge));
    } else {
        v.push(("skeleton", Placement::Skeleton));
    }
    v
}

} // verus!
