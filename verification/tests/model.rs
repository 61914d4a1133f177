//! Small model types: pragmas, notifier configuration, colour support.

use august_build::cli::ColourSupport;
use august_build::notifier::LogNotifier;
use august_build::runtime::{Notifier, NotifierEvent, SilentNotifier};
use august_build::Pragma;

#[test]
fn pragmas_are_two_distinct_roles() {
    assert_ne!(Pragma::Test, Pragma::Build);
    assert_eq!(Pragma::Test, Pragma::Test);
}

#[test]
fn colour_support_defaults_to_auto() {
    assert_eq!(ColourSupport::default(), ColourSupport::Auto);
}

#[test]
fn log_notifier_builder_keeps_configuration() {
    let n = LogNotifier::new("main.script".to_string(), "unit u { }".to_string());
    assert_eq!(n.file_name, "main.script");
    assert_eq!(n.code, "unit u { }");
    assert!(!n.verbose);
    let v = n.verbose();
    assert!(v.verbose);
    assert_eq!(v.file_name, "main.script");
}

#[test]
fn silent_notifier_drops_events() {
    let n = SilentNotifier;
    n.on_event(&NotifierEvent::Start("u".to_string()));
}
