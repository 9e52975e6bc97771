use graphshell::profile::{env_profile, resolve_selected_profile, PROFILE_ENV};

#[test]
fn the_override_is_read_from_the_application_variable() {
    assert_eq!(PROFILE_ENV, "GRAPHSHELL_PROFILE");
}

#[test]
fn a_blank_override_leaves_the_choice_to_the_family() {
    assert_eq!(env_profile(None), None);
    assert_eq!(env_profile(Some(String::new())), None);
    assert_eq!(env_profile(Some(" \t ".to_string())), None);
    assert_eq!(env_profile(Some("  receipt ".to_string())), Some("receipt".to_string()));
}

#[test]
fn an_explicit_profile_beats_the_override() {
    assert_eq!(
        resolve_selected_profile(Some("receipt"), Some("stage-name".to_string())),
        Some("receipt".to_string())
    );
    assert_eq!(
        resolve_selected_profile(None, Some(" stage-name ".to_string())),
        Some("stage-name".to_string())
    );
    assert_eq!(resolve_selected_profile(None, Some("   ".to_string())), None);
    assert_eq!(resolve_selected_profile(None, None), None);
}
