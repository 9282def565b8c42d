use atspi::{Interface, InterfaceSet};
use test_by_a11y::error::TestByATSPIError;
use test_by_a11y::interaction::{
    is_click_action, mentions_click, require_capability, resolve_action, Action,
};
use test_by_a11y::prelude::Interaction;

fn action(name: &str, description: &str) -> Action {
    Action { name: name.to_string(), description: description.to_string() }
}

#[test]
fn click_skips_an_action_that_does_not_mention_it() {
    let actions = vec![action("Activate", "toggle"), action("Click me", "")];
    assert_eq!(resolve_action(Interaction::Click, &actions), Ok(1));
}

#[test]
fn click_takes_the_first_action_that_mentions_it_by_name() {
    let actions = vec![action("click", ""), action("Click me", "the best click there is")];
    assert_eq!(resolve_action(Interaction::Click, &actions), Ok(0));
}

#[test]
fn click_takes_the_first_action_that_mentions_it_by_description() {
    let actions = vec![action("Activate", "Clicks the toggle"), action("Click me", "")];
    assert_eq!(resolve_action(Interaction::Click, &actions), Ok(0));
}

#[test]
fn click_is_found_in_any_case() {
    let actions = vec![action("press", "presses"), action("DOUBLE-CLICK", "")];
    assert_eq!(resolve_action(Interaction::Click, &actions), Ok(1));
    assert!(is_click_action(&action("", "cLiCk")));
    assert!(is_click_action(&action("unclickable", "")));
}

#[test]
fn click_fails_where_no_action_mentions_it() {
    let actions = vec![action("Activate", "toggle"), action("clic", "k"), action("c lick", "")];
    assert_eq!(resolve_action(Interaction::Click, &actions), Err(TestByATSPIError::CannotFindAction));
    assert_eq!(resolve_action(Interaction::Click, &vec![]), Err(TestByATSPIError::CannotFindAction));
}

#[test]
fn lowered_texts_are_tested_as_they_stand() {
    assert!(mentions_click("click", ""));
    assert!(mentions_click("", "a click here"));
    assert!(!mentions_click("CLICK", "Click"));
    assert!(!mentions_click("", ""));
    assert!(!mentions_click("clic", "lick"));
}

#[test]
fn click_needs_a_target_that_offers_actions() {
    let mut with_actions = InterfaceSet::empty();
    with_actions.insert(Interface::Accessible);
    with_actions.insert(Interface::Action);
    with_actions.insert(Interface::Component);
    assert_eq!(require_capability(Interaction::Click, &with_actions), Ok(()));
    let mut only_actions = InterfaceSet::empty();
    only_actions.insert(Interface::Action);
    assert_eq!(require_capability(Interaction::Click, &only_actions), Ok(()));
    assert_eq!(require_capability(Interaction::Click, &InterfaceSet::all()), Ok(()));
}

#[test]
fn click_is_refused_on_a_target_without_actions() {
    let mut without_actions = InterfaceSet::empty();
    without_actions.insert(Interface::Accessible);
    without_actions.insert(Interface::Application);
    without_actions.insert(Interface::Text);
    assert_eq!(
        require_capability(Interaction::Click, &without_actions),
        Err(TestByATSPIError::CannotPerformInteractionOnTarget)
    );
    assert_eq!(
        require_capability(Interaction::Click, &InterfaceSet::empty()),
        Err(TestByATSPIError::CannotPerformInteractionOnTarget)
    );
}
