//! Which of the objects under the accessibility root is the application
//! that a session is to be bound to.

use vstd::prelude::*;
use crate::error::TestByATSPIError;
use crate::snapshot::{text_of, ROLE_APPLICATION};

verus! {

/// One direct child of the accessibility root, as far as it was looked at.
#[derive(Debug, PartialEq, Eq)]
pub struct Candidate {
    /// The bus name of the process that owns the object.
    pub destination: String,
    /// The object's path within that process.
    pub path: String,
    /// The role number of the object.
    pub role: u32,
    /// The object's name, where it was asked for: only an application's name
    /// is of interest.
    pub name: Option<String>,
}

/// Whether a candidate is the application of the given name: its role is
/// that of an application and its name is exactly the one asked for.
pub open spec fn is_wanted(candidate: Candidate, app_name: Seq<char>) -> bool {
    candidate.role == ROLE_APPLICATION && text_of(candidate.name) == Some(app_name)
}

/// Whether `index` is the one candidate of the list that is wanted.
pub open spec fn is_only_wanted(candidates: Seq<Candidate>, app_name: Seq<char>, index: int) -> bool {
    &&& 0 <= index < candidates.len()
    &&& is_wanted(candidates[index], app_name)
    &&& forall|other: int|
        0 <= other < candidates.len() && is_wanted(#[trigger] candidates[other], app_name)
            ==> other == index
}

/// Whether no candidate of the list is wanted.
pub open spec fn none_wanted(candidates: Seq<Candidate>, app_name: Seq<char>) -> bool {
    forall|i: int| 0 <= i < candidates.len() ==> !is_wanted(#[trigger] candidates[i], app_name)
}

/// Whether two different candidates of the list are wanted.
pub open spec fn several_wanted(candidates: Seq<Candidate>, app_name: Seq<char>) -> bool {
    exists|i: int, j: int|
        0 <= i < j < candidates.len() && is_wanted(#[trigger] candidates[i], app_name)
            && is_wanted(#[trigger] candidates[j], app_name)
}

/// Whether an object with this role is an application, and so whether its
/// name is worth asking for.
pub fn is_application(role: u32) -> (yes: bool)
    ensures
        yes == (role == ROLE_APPLICATION),
{
    role == ROLE_APPLICATION
}

/// Tests one candidate against the name asked for.
pub fn is_wanted_candidate(candidate: &Candidate, app_name: &String) -> (yes: bool)
    ensures
        yes == is_wanted(*candidate, app_name@),
{
    if candidate.role != ROLE_APPLICATION {
        return false;
    }
    match &candidate.name {
        Some(name) => *name == *app_name,
        None => false,
    }
}

/// Picks the application to connect to. Succeeds with the index of the
/// wanted candidate exactly when one candidate and no other is wanted. With
/// none, and with two or more, it fails with `CannotFindApplication`: a
/// session is never bound to one of several look-alikes.
pub fn select_application(candidates: &Vec<Candidate>, app_name: &String) -> (outcome: Result<
    usize,
    TestByATSPIError,
>)
    ensures
        outcome is Ok <==> exists|index: int| is_only_wanted(candidates@, app_name@, index),
        outcome matches Ok(index) ==> is_only_wanted(candidates@, app_name@, index as int),
        outcome matches Err(error) ==> error is CannotFindApplication && (none_wanted(
            candidates@,
            app_name@,
        ) || several_wanted(candidates@, app_name@)),
{
    let mut found: Option<usize> = None;
    let mut i: usize = 0;
    while i < candidates.len()
        invariant
            i <= candidates@.len(),
            found is None ==> forall|k: int|
                0 <= k < i ==> !is_wanted(#[trigger] candidates@[k], app_name@),
            found matches Some(index) ==> index < i && is_wanted(
                candidates@[index as int],
                app_name@,
            ) && forall|k: int|
                0 <= k < i && is_wanted(#[trigger] candidates@[k], app_name@) ==> k == index,
        decreases candidates@.len() - i,
    {
        if is_wanted_candidate(&candidates[i], app_name) {
            match found {
                Some(index) => {
                    assert(is_wanted(candidates@[index as int], app_name@) && is_wanted(
                        candidates@[i as int],
                        app_name@,
                    ));
                    assert(several_wanted(candidates@, app_name@));
                    assert forall|only: int| !is_only_wanted(candidates@, app_name@, only) by {
                        if only == index as int {
                            assert(is_wanted(candidates@[i as int], app_name@));
                        } else {
                            assert(is_wanted(candidates@[index as int], app_name@));
                        }
                    }
                    return Err(TestByATSPIError::CannotFindApplication);
                },
                None => {
                    found = Some(i);
                },
            }
        }
        i += 1;
    }
    match found {
        Some(index) => {
            assert(is_only_wanted(candidates@, app_name@, index as int));
            Ok(index)
        },
        None => Err(TestByATSPIError::CannotFindApplication),
    }
}

} // verus!
