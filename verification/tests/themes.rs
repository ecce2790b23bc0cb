use pishock_bridge::theme::{default_theme, theme_id, theme_index, PanelEvents, THEME_COUNT};

#[test]
fn default_themes() {
    assert_eq!(default_theme(true), 7);
    assert_eq!(default_theme(false), 0);
    assert_eq!(theme_id(default_theme(true)), "paper");
    assert_eq!(theme_id(default_theme(false)), "terminal");
}

#[test]
fn law_theme_ids_round_trip() {
    for i in 0..THEME_COUNT {
        assert_eq!(theme_index(theme_id(i)), Some(i));
    }
    assert_eq!(theme_index("blueprint"), Some(8));
    assert_eq!(theme_index("missing"), None);
    assert_eq!(theme_index("Paper"), None);
}

#[test]
fn panel_events_start_empty() {
    let e = PanelEvents::default();
    assert!(e.theme.is_none() && !e.prefs_changed && !e.close);
}
