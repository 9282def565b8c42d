use test_by_a11y::prelude::TestByATSPIError;

#[test]
fn every_error_describes_itself() {
    assert_eq!(
        TestByATSPIError::CannotFindApplication.message(),
        "Cannot find the application you specified to connect to."
    );
    assert_eq!(
        TestByATSPIError::Atspi("no such object".to_string()).message(),
        "ATSPI error: no such object"
    );
    assert_eq!(
        TestByATSPIError::Zbus("name has no owner".to_string()).message(),
        "ZBus error: name has no owner"
    );
    assert_eq!(
        TestByATSPIError::CannotPerformInteractionOnTarget.message(),
        "The target you have provided does not support that kind of interaction"
    );
    assert_eq!(
        TestByATSPIError::CannotFindAction.message(),
        "The action cannot be found on this node"
    );
}

#[test]
fn a_walk_without_nodes_has_its_own_error() {
    assert_eq!(
        TestByATSPIError::no_root(),
        TestByATSPIError::Atspi("No root node built".to_string())
    );
    assert_eq!(TestByATSPIError::no_root().message(), "ATSPI error: No root node built");
}
