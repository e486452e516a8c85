//! The scaffold generator: how a new, empty migration unit is named, and
//! when creating it fails.
//!
//! Reading the clock, listing the directory and writing the file are the
//! caller's business. Here the name is made from the timestamp and the
//! description, a collision with an existing unit is refused, and the
//! outcome of the write is turned into the result of the whole.

use crate::error::{ErrorView, MigrationError};
use crate::name::texts;
use vstd::prelude::*;
use vstd::string::*;

verus! {

/// The clock that a timestamp is read from.
#[derive(Clone, Copy, Debug, PartialEq, Eq, Structural)]
pub enum Clock {
    /// Universal time.
    Universal,
    /// The local time of the machine.
    Local,
}

/// The clock that the flag selects.
pub fn clock_for(universal_time: bool) -> (clock: Clock)
    ensures
        clock == if universal_time {
            Clock::Universal
        } else {
            Clock::Local
        },
{
    if universal_time {
        Clock::Universal
    } else {
        Clock::Local
    }
}

/// The name of a unit: the timestamp, an underscore, the description.
pub open spec fn unit_name_of(timestamp: Seq<char>, description: Seq<char>) -> Seq<char> {
    timestamp + seq!['_'] + description
}

/// Makes the name of a new unit from a formatted timestamp and a short
/// description.
pub fn unit_name(timestamp: &str, description: &str) -> (name: String)
    ensures
        name@ == unit_name_of(timestamp@, description@),
{
    proof {
        reveal_strlit("_");
    }
    assert("_"@ =~= seq!['_']);
    let mut name: String = String::from_str(timestamp);
    name.append("_");
    name.append(description);
    name
}

/// Whether `names` holds `name`.
pub fn holds(names: &Vec<String>, name: &String) -> (found: bool)
    ensures
        found == texts(names@).contains(name@),
{
    let n: usize = names.len();
    let mut i: usize = 0;
    while i < n
        invariant
            n == names@.len(),
            i <= n,
            forall|k: int| 0 <= k < i ==> texts(names@)[k] != name@,
        decreases n - i,
    {
        if names[i] == *name {
            assert(texts(names@)[i as int] == name@);
            return true;
        }
        i = i + 1;
    }
    false
}

/// Names the unit to create, given the units that exist. Fails with
/// `NameCollision` if a unit of exactly that name exists already.
pub fn scaffold(existing: &Vec<String>, timestamp: &str, description: &str) -> (r: Result<
    String,
    MigrationError,
>)
    ensures
        r is Err <==> texts(existing@).contains(unit_name_of(timestamp@, description@)),
        r matches Ok(name) ==> name@ == unit_name_of(timestamp@, description@),
        r matches Err(e) ==> e@ == ErrorView::NameCollision(
            unit_name_of(timestamp@, description@),
        ),
{
    let name: String = unit_name(timestamp, description);
    if holds(existing, &name) {
        Err(MigrationError::NameCollision(name))
    } else {
        Ok(name)
    }
}

/// Turns the outcome of writing the unit's file into the result of the
/// scaffold: the name of the unit, or `IoError` with the system's words.
pub fn written(name: String, outcome: Result<(), String>) -> (r: Result<String, MigrationError>)
    ensures
        r is Ok <==> outcome is Ok,
        r matches Ok(n) ==> n@ == name@,
        r matches Err(e) ==> outcome matches Err(detail) && e@ == ErrorView::IoError(detail@),
{
    match outcome {
        Ok(()) => Ok(name),
        Err(detail) => Err(MigrationError::IoError(detail)),
    }
}

} // verus!
