//! Which action of a widget stands for the interaction that was asked for.

use vstd::prelude::*;
use atspi::{Interface, InterfaceSet};
use crate::api::Interaction;
use crate::error::TestByATSPIError;
use crate::text::{contains, has_infix, lowercase_of, to_lowercase};

verus! {

/// The set of interfaces that a remote object implements.
#[verifier::external_type_specification]
#[verifier::external_body]
pub struct ExInterfaceSet(InterfaceSet);

/// The interfaces that a set holds, each by the name it bears on the bus.
pub uninterp spec fn interface_names(set: InterfaceSet) -> Set<Seq<char>>;

/// The name that the interface for actions bears on the bus.
pub open spec fn action_interface() -> Seq<char> {
    "org.a11y.atspi.Action"@
}

/// Calls `InterfaceSet::contains` with `Interface::Action`. Trusted: the
/// result is `true` exactly when the set holds the interface that the crate
/// names `org.a11y.atspi.Action` on the bus.
#[verifier::external_body]
fn holds_action_interface(set: &InterfaceSet) -> (yes: bool)
    ensures
        yes == interface_names(*set).contains(action_interface()),
{
    set.contains(Interface::Action)
}

/// Whether a target with these interfaces can take the interaction. A click
/// needs the interface for actions.
pub open spec fn is_capable(interaction: Interaction, interfaces: InterfaceSet) -> bool {
    match interaction {
        Interaction::Click => interface_names(interfaces).contains(action_interface()),
    }
}

/// One action that a widget offers, as the remote side lists it.
#[derive(Debug, PartialEq, Eq)]
pub struct Action {
    /// The name of the action.
    pub name: String,
    /// The description of the action.
    pub description: String,
}

/// Whether one of two texts, both already in lower case, holds the word
/// `click`.
pub open spec fn holds_click(lowered_name: Seq<char>, lowered_description: Seq<char>) -> bool {
    has_infix(lowered_name, "click"@) || has_infix(lowered_description, "click"@)
}

/// Whether an action stands for a click: its name or its description holds
/// the word `click`, in whatever case.
pub open spec fn is_click(action: Action) -> bool {
    holds_click(lowercase_of(action.name@), lowercase_of(action.description@))
}

/// Whether `index` is the first action of the list that stands for a click.
pub open spec fn is_first_click(actions: Seq<Action>, index: int) -> bool {
    &&& 0 <= index < actions.len()
    &&& is_click(actions[index])
    &&& forall|earlier: int| 0 <= earlier < index ==> !is_click(#[trigger] actions[earlier])
}

/// Tests two texts that are already in lower case for the word `click`.
pub fn mentions_click(lowered_name: &str, lowered_description: &str) -> (yes: bool)
    ensures
        yes == holds_click(lowered_name@, lowered_description@),
{
    contains(lowered_name, "click") || contains(lowered_description, "click")
}

/// Tests whether an action stands for a click.
pub fn is_click_action(action: &Action) -> (yes: bool)
    ensures
        yes == is_click(*action),
{
    let name = to_lowercase(action.name.as_str());
    let description = to_lowercase(action.description.as_str());
    mentions_click(name.as_str(), description.as_str())
}

/// Says whether a target can take the interaction at all, before any of its
/// actions is listed. Fails with `CannotPerformInteractionOnTarget` exactly
/// when the target lacks the interface that the interaction needs.
pub fn require_capability(interaction: Interaction, interfaces: &InterfaceSet) -> (outcome: Result<
    (),
    TestByATSPIError,
>)
    ensures
        outcome is Ok <==> is_capable(interaction, *interfaces),
        outcome matches Err(error) ==> error is CannotPerformInteractionOnTarget,
{
    match interaction {
        Interaction::Click => {
            if holds_action_interface(interfaces) {
                Ok(())
            } else {
                Err(TestByATSPIError::CannotPerformInteractionOnTarget)
            }
        },
    }
}

/// Picks the action to trigger for an interaction. For a click it is the
/// first listed action that stands for one: an earlier action wins over a
/// later one, however well the later one fits. Fails with
/// `CannotFindAction` exactly when no listed action stands for a click.
pub fn resolve_action(interaction: Interaction, actions: &Vec<Action>) -> (outcome: Result<
    usize,
    TestByATSPIError,
>)
    ensures
        outcome is Ok <==> exists|i: int| 0 <= i < actions@.len() && is_click(#[trigger] actions@[i]),
        outcome matches Ok(index) ==> is_first_click(actions@, index as int),
        outcome matches Err(error) ==> error is CannotFindAction,
{
    match interaction {
        Interaction::Click => {
            let mut index: usize = 0;
            while index < actions.len()
                invariant
                    index <= actions@.len(),
                    forall|i: int| 0 <= i < index ==> !is_click(#[trigger] actions@[i]),
                decreases actions@.len() - index,
            {
                if is_click_action(&actions[index]) {
                    return Ok(index);
                }
                index += 1;
            }
            Err(TestByATSPIError::CannotFindAction)
        },
    }
}

} // verus!
