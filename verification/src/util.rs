//! Reading the names that a user gives for a policy and an articulation.

use crate::engine::WHOLE;
use crate::policy::PolyPolicy;
use vstd::prelude::*;

verus! {

/// Articulation that holds three quarters of a note.
pub const PORTATO: u32 = 750_000;

/// Articulation that holds half of a note.
pub const STACCATO: u32 = 500_000;

/// Articulation that holds a quarter of a note.
pub const STACCATISSIMO: u32 = 250_000;

/// What `str::to_lowercase` makes of a string.
pub uninterp spec fn lowercase(s: Seq<char>) -> Seq<char>;

/// `str::to_lowercase`: the result depends on the characters alone.
#[verifier::external_body]
fn to_lowercase(s: &str) -> (r: String)
    ensures
        r@ == lowercase(s@),
{
    s.to_lowercase()
}

fn is(name: &str, word: &str) -> (r: bool)
    ensures
        r == (name@ == word@),
{
    let a = name.to_owned();
    let b = word.to_owned();
    a == b
}

/// The policy that goes by `name`, if one does.
pub open spec fn policy_known(name: Seq<char>) -> Option<PolyPolicy> {
    if name == "h"@ || name == "highest"@ {
        Some(PolyPolicy::Highest)
    } else if name == "lw"@ || name == "lowest"@ {
        Some(PolyPolicy::Lowest)
    } else if name == "lu"@ || name == "loudest"@ {
        Some(PolyPolicy::Loudest)
    } else if name == "a"@ || name == "d"@ || name == "auto"@ || name == "densest"@ {
        Some(PolyPolicy::Densest)
    } else {
        None
    }
}

/// The policy that goes by `name`; an unknown name stands for the highest
/// pitch.
pub open spec fn policy_named(name: Seq<char>) -> PolyPolicy {
    match policy_known(name) {
        Some(policy) => policy,
        None => PolyPolicy::Highest,
    }
}

/// The name asks for an articulation given by a value of its own.
pub open spec fn names_custom(name: Seq<char>) -> bool {
    name == "c"@ || name == "custom"@
}

/// The articulation, in parts per million, that goes by `name`.
///
/// A custom articulation is the value given with it, the whole at most, and
/// portato where none is given; an unknown name stands for portato.
pub open spec fn articulation_named(name: Seq<char>, custom: Option<u32>) -> u32 {
    if name == "t"@ || name == "tenuto"@ {
        WHOLE
    } else if name == "s"@ || name == "staccato"@ {
        STACCATO
    } else if name == "ss"@ || name == "staccatissimo"@ {
        STACCATISSIMO
    } else if name == "p"@ || name == "portato"@ || name == "portamento"@ {
        PORTATO
    } else if names_custom(name) {
        match custom {
            Some(share) => if share > WHOLE {
                WHOLE
            } else {
                share
            },
            None => PORTATO,
        }
    } else {
        PORTATO
    }
}

/// The policy that goes by `name`, which is taken as it is written, if
/// one does.
pub fn known_policy(name: &str) -> (p: Option<PolyPolicy>)
    ensures
        p == policy_known(name@),
{
    if is(name, "h") || is(name, "highest") {
        Some(PolyPolicy::Highest)
    } else if is(name, "lw") || is(name, "lowest") {
        Some(PolyPolicy::Lowest)
    } else if is(name, "lu") || is(name, "loudest") {
        Some(PolyPolicy::Loudest)
    } else if is(name, "a") || is(name, "d") || is(name, "auto") || is(name, "densest") {
        Some(PolyPolicy::Densest)
    } else {
        None
    }
}

/// The policy that goes by `name`, which is taken as it is written.
pub fn policy_from_name(name: &str) -> (p: PolyPolicy)
    ensures
        p == policy_named(name@),
{
    match known_policy(name) {
        Some(policy) => policy,
        None => PolyPolicy::Highest,
    }
}

/// The policy that goes by `s`, whatever the case of its letters, if one
/// does.
pub fn find_policy(s: &str) -> (p: Option<PolyPolicy>)
    ensures
        p == policy_known(lowercase(s@)),
{
    let name = to_lowercase(s);
    known_policy(name.as_str())
}

/// Whether `input`, whatever the case of its letters, asks for an
/// articulation given by a value of its own.
pub fn asks_custom(input: &str) -> (r: bool)
    ensures
        r == names_custom(lowercase(input@)),
{
    let name = to_lowercase(input);
    is(name.as_str(), "c") || is(name.as_str(), "custom")
}

/// The articulation that goes by `name`, which is taken as it is written.
pub fn articulation_from_name(name: &str, custom: Option<u32>) -> (share: u32)
    ensures
        share == articulation_named(name@, custom),
        share <= WHOLE,
{
    if is(name, "t") || is(name, "tenuto") {
        WHOLE
    } else if is(name, "s") || is(name, "staccato") {
        STACCATO
    } else if is(name, "ss") || is(name, "staccatissimo") {
        STACCATISSIMO
    } else if is(name, "p") || is(name, "portato") || is(name, "portamento") {
        PORTATO
    } else if is(name, "c") || is(name, "custom") {
        match custom {
            Some(share) => if share > WHOLE {
                WHOLE
            } else {
                share
            },
            None => PORTATO,
        }
    } else {
        PORTATO
    }
}

/// The policy that goes by `s`, whatever the case of its letters.
pub fn parse_policy(s: &str) -> (p: PolyPolicy)
    ensures
        p == policy_named(lowercase(s@)),
{
    let name = to_lowercase(s);
    policy_from_name(name.as_str())
}

/// The articulation that goes by `input`, whatever the case of its letters.
pub fn parse_articulation(input: &str, custom: Option<u32>) -> (share: u32)
    ensures
        share == articulation_named(lowercase(input@), custom),
        share <= WHOLE,
{
    let name = to_lowercase(input);
    articulation_from_name(name.as_str(), custom)
}

} // verus!
