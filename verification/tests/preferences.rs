use graphshell::personal_sync::{AuthoredOperation, PersonalGraphEvent, SyncSelection};
use graphshell::preferences::{fold_handler_preferences, HandlerPreferences};

fn prefer(key: &str, handler: &str) -> PersonalGraphEvent {
    PersonalGraphEvent::SetHandlerPreference {
        key: key.to_string(),
        handler: handler.to_string(),
    }
}

fn entries(p: &HandlerPreferences) -> Vec<(&str, &str)> {
    p.entries().iter().map(|(k, h)| (k.as_str(), h.as_str())).collect()
}

#[test]
fn a_later_preference_replaces_an_earlier_one_and_keys_stay_in_order() {
    let mut prefs = HandlerPreferences::new();
    prefs.set("text/markdown", "graphshell.reader");
    prefs.set("image/png", "graphshell.viewer");
    prefs.set("text/markdown", "graphshell.inspect");
    assert_eq!(
        entries(&prefs),
        vec![("image/png", "graphshell.viewer"), ("text/markdown", "graphshell.inspect")]
    );
}

#[test]
fn only_a_device_projecting_preferences_folds_them_in_causal_order() {
    let ops = vec![
        AuthoredOperation { author: Some([1; 32]), events: vec![prefer("a", "first"), PersonalGraphEvent::RemoveNode { id: 3 }] },
        AuthoredOperation { author: None, events: vec![prefer("b", "other"), prefer("a", "second")] },
    ];
    let on = fold_handler_preferences(&ops, &SyncSelection::default().with_handler_preferences(true));
    assert_eq!(entries(&on), vec![("a", "second"), ("b", "other")]);
    let off = fold_handler_preferences(&ops, &SyncSelection::default());
    assert!(off.entries().is_empty());
}
