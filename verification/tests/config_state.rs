use midi_staff_trainer::config::Config;
use midi_staff_trainer::state::AppState;

// ── Config::default ───────────────────────────────────────────────────────

#[test]
fn default_midi_range() {
    let cfg = Config::default();
    assert_eq!(cfg.midi_low, 41);  // F2
    assert_eq!(cfg.midi_high, 72); // C5
}

#[test]
fn default_no_port() {
    assert!(Config::default().midi_port.is_none());
}

#[test]
fn default_range_is_valid() {
    let cfg = Config::default();
    assert!(cfg.midi_low < cfg.midi_high, "midi_low must be less than midi_high");
}

// ── AppState ──────────────────────────────────────────────────────────────

#[test]
fn default_has_no_training_range() {
    let s = AppState::default();
    assert!(s.training_low.is_none());
    assert!(s.training_high.is_none());
}

#[test]
fn active_range_falls_back_to_keyboard_range() {
    let cfg = Config { midi_low: 36, midi_high: 96, midi_port: None };
    assert_eq!(AppState::default().active_range(&cfg), (36, 96));
    let half = AppState { training_low: Some(48), training_high: None };
    assert_eq!(half.active_range(&cfg), (48, 96));
}

#[test]
fn set_range_is_used_as_active_range() {
    let cfg = Config::default();
    let mut s = AppState::default();
    s.set_range(48, 72);
    assert_eq!(s, AppState { training_low: Some(48), training_high: Some(72) });
    assert_eq!(s.active_range(&cfg), (48, 72));
}
