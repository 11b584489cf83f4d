use verse::pane::PaneKind;
use verse::settings::{Caps, Density, PaneSettings, Settings, Tint, Visualizer};

#[test]
fn an_untouched_pane_stores_nothing() {
    assert!(PaneSettings::default().is_empty(), "defaults should not be written down");
}

#[test]
fn an_untouched_pane_still_answers_with_defaults() {
    assert_eq!(PaneSettings::default().visualizer(), Visualizer::default());
}

#[test]
fn a_kind_with_nothing_to_configure_has_no_settings() {
    assert_eq!(Settings::default_for(PaneKind::Library), None);
    assert_eq!(Settings::default_for(PaneKind::Empty), None);
    assert!(Settings::default_for(PaneKind::Visualizer).is_some());
}

#[test]
fn a_setting_is_filed_under_the_kind_it_belongs_to() {
    let mut settings = PaneSettings::default();
    settings.set(Settings::Visualizer(Visualizer { density: Density::Coarse, ..Visualizer::default() }));

    assert_eq!(settings.visualizer().density, Density::Coarse);
    assert_eq!(settings.get(PaneKind::Queue), None);
}

#[test]
fn changing_kind_and_returning_keeps_the_tuning() {
    let mut settings = PaneSettings::default();
    settings.set(Settings::Visualizer(Visualizer { peak_hold: true, ..Visualizer::default() }));

    assert!(settings.visualizer().peak_hold);
}

#[test]
fn every_choice_is_labeled() {
    for density in Density::ALL {
        assert!(!density.label().is_empty());
    }
    for caps in Caps::ALL {
        assert!(!caps.label().is_empty());
    }
    for tint in Tint::ALL {
        assert!(!tint.label().is_empty());
    }
}

#[test]
fn the_defaults_are_what_the_pane_already_did() {
    let visualizer = Visualizer::default();
    assert_eq!(visualizer.density, Density::Normal);
    assert_eq!(visualizer.tint, Tint::Amplitude);
    assert!(!visualizer.peak_hold);
}

#[test]
fn only_the_artwork_tint_asks_for_a_cover() {
    for tint in Tint::ALL {
        assert_eq!(
            tint.needs_artwork(),
            tint == Tint::Artwork,
            "{tint:?} disagrees about whether it needs a cover looked up"
        );
    }
}

#[test]
fn a_later_setting_for_a_kind_replaces_the_earlier_one() {
    let mut settings = PaneSettings::default();
    settings.set(Settings::Visualizer(Visualizer { density: Density::Fine, ..Visualizer::default() }));
    settings.set(Settings::Visualizer(Visualizer { density: Density::Coarse, ..Visualizer::default() }));
    assert_eq!(settings.entries().len(), 1);
    assert_eq!(settings.visualizer().density, Density::Coarse);
}
