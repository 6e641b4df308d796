use cosmic_workspaces::names::{compare_names, NameOrder};
use cosmic_workspaces::special_config::{
    NamedSpecialConfig, NamedSpecials, NumberedSpecialsConfig, SpecialAnchor, SpecialConfig,
    SPECIAL_NUMBERED_SLOTS,
};
use cosmic_workspaces::workspace_config::{
    default_wraparound, Action, EdidProduct, OutputMatch, PinnedWorkspace, WorkspaceConfig,
    WorkspaceLayout, WorkspaceMode,
};

#[test]
fn default_matches_builtin_behavior() {
    let config = SpecialConfig::default();
    assert_eq!(config.numbered, NumberedSpecialsConfig::default());
    assert_eq!(config.numbered.anchor, SpecialAnchor::Center);
    assert_eq!(config.numbered.width, None);
    assert!(config.named.is_empty());
}

#[test]
fn named_specials_get_slots_past_numbered_range() {
    let mut config = SpecialConfig::default();
    config.named.insert("zeta".to_string(), Default::default());
    config.named.insert("alpha".to_string(), Default::default());
    config.named.insert("mid".to_string(), Default::default());
    // Sorted order (alpha, mid, zeta) determines slot stability.
    assert_eq!(config.slot_for_name("alpha"), Some(SPECIAL_NUMBERED_SLOTS));
    assert_eq!(
        config.slot_for_name("mid"),
        Some(SPECIAL_NUMBERED_SLOTS + 1)
    );
    assert_eq!(
        config.slot_for_name("zeta"),
        Some(SPECIAL_NUMBERED_SLOTS + 2)
    );
    assert_eq!(config.slot_for_name("missing"), None);
}

#[test]
fn numbered_slots_are_fixed() {
    assert_eq!(SpecialConfig::numbered_slot(1), 0);
    assert_eq!(SpecialConfig::numbered_slot(12), 11);
    // Out-of-range input clamps into the numbered range, never spills
    // into the named range.
    assert_eq!(SpecialConfig::numbered_slot(13), 11);
}

#[test]
fn numbered_slots_clamp_at_both_ends() {
    assert_eq!(SpecialConfig::numbered_slot(0), 0);
    assert_eq!(SpecialConfig::numbered_slot(7), 6);
    assert_eq!(SpecialConfig::numbered_slot(255), 11);
}

#[test]
fn only_an_untouched_config_is_a_noop() {
    assert!(SpecialConfig::default().is_noop());

    let mut sized = SpecialConfig::default();
    sized.numbered.width = Some(800);
    assert!(!sized.is_noop());

    let mut anchored = SpecialConfig::default();
    anchored.numbered.anchor = SpecialAnchor::Top;
    assert!(!anchored.is_noop());

    let mut named = SpecialConfig::default();
    named
        .named
        .insert("notes".to_string(), NamedSpecialConfig::default());
    assert!(!named.is_noop());
}

#[test]
fn inserting_a_name_again_replaces_its_declaration() {
    let mut named = NamedSpecials::new();
    let wide = NamedSpecialConfig {
        width: Some(1000),
        height: Some(400),
        anchor: SpecialAnchor::Top,
        on_demand: true,
    };
    assert_eq!(named.insert("terminal".to_string(), Default::default()), None);
    assert_eq!(
        named.insert("terminal".to_string(), wide),
        Some(NamedSpecialConfig::default())
    );
    assert_eq!(named.get("terminal"), Some(&wide));
    assert_eq!(named.get("notes"), None);
    assert_eq!(named.rows().len(), 1);
}

#[test]
fn rows_come_in_name_order() {
    let mut named = NamedSpecials::new();
    for name in ["b", "ab", "", "a", "é", "z", "ba"] {
        named.insert(name.to_string(), NamedSpecialConfig::default());
    }
    let names: Vec<&str> = named.rows().iter().map(|r| r.0.as_str()).collect();
    let mut sorted = vec!["b", "ab", "", "a", "é", "z", "ba"];
    sorted.sort();
    assert_eq!(names, sorted);
}

#[test]
fn slots_do_not_depend_on_declaration_order() {
    let mut one = SpecialConfig::default();
    let mut other = SpecialConfig::default();
    for name in ["x", "m", "c"] {
        one.named.insert(name.to_string(), Default::default());
    }
    for name in ["c", "x", "m"] {
        other.named.insert(
            name.to_string(),
            NamedSpecialConfig {
                on_demand: true,
                ..Default::default()
            },
        );
    }
    for name in ["x", "m", "c", "q"] {
        assert_eq!(one.slot_for_name(name), other.slot_for_name(name));
    }
}

#[test]
fn names_compare_as_strings_do() {
    assert_eq!(compare_names("alpha", "mid"), NameOrder::Before);
    assert_eq!(compare_names("zeta", "mid"), NameOrder::After);
    assert_eq!(compare_names("mid", "mid"), NameOrder::Same);
    assert_eq!(compare_names("a", "ab"), NameOrder::Before);
    assert_eq!(compare_names("", ""), NameOrder::Same);
    assert_eq!(compare_names("ab", "a"), NameOrder::After);
    assert_eq!(compare_names("\u{ffff}", "\u{10000}"), NameOrder::Before);
}

#[test]
fn workspace_config_defaults() {
    let config = WorkspaceConfig::default();
    assert_eq!(config.workspace_mode, WorkspaceMode::OutputBound);
    assert_eq!(config.workspace_layout, WorkspaceLayout::Vertical);
    assert_eq!(config.action_on_typing, Action::NoAction);
    assert!(config.workspace_wraparound);
    assert!(default_wraparound());
}

#[test]
fn pinned_workspaces_compare_by_content() {
    let edid = EdidProduct {
        manufacturer: ['D', 'E', 'L'],
        product: 7,
        serial: Some(1),
        manufacture_week: 12,
        manufacture_year: 2020,
        model_year: None,
    };
    let pinned = PinnedWorkspace {
        output: OutputMatch {
            name: "DP-1".to_string(),
            edid: Some(edid),
        },
        tiling_enabled: true,
        id: None,
        name: Some("mail".to_string()),
    };
    assert_eq!(pinned, pinned.clone());
    let mut other = pinned.clone();
    other.output.edid = None;
    assert_ne!(pinned, other);
}
