//! Marbles, the marble map, and the settings presets.

use haxagon::credits::{ModeCredits, CREDITS_TEXT};
use haxagon::hex::HexCoord;
use haxagon::marble::Marble;
use haxagon::marble_map::MarbleMap;
use haxagon::settings::{BoardSettings, BoardSettingsModeKey};

#[test]
fn another_cycles_through_every_color() {
    let mut m = Marble::Red;
    let mut seen = vec![m];
    for _ in 0..6 {
        m = m.another();
        assert!(!seen.contains(&m));
        seen.push(m);
    }
    assert_eq!(m.another(), Marble::Red);
}

#[test]
fn random_marble_stays_in_the_color_pool() {
    quad_rand::srand(7);
    for _ in 0..100 {
        let m = Marble::random(3);
        assert!(matches!(m, Marble::Red | Marble::Green | Marble::Blue));
    }
}

#[test]
fn marble_map_insert_get_remove() {
    let mut map = MarbleMap::new();
    let c = HexCoord::new(2, -1);
    assert!(map.get(&c).is_none());
    map.insert(c, Marble::Cyan);
    assert_eq!(map.get(&c), Some(&Marble::Cyan));
    assert_eq!(map.len(), 1);
    map.insert(c, Marble::Pink);
    assert_eq!(map.get(&c), Some(&Marble::Pink));
    assert_eq!(map.len(), 1);
    assert_eq!(map.remove(&c), Some(Marble::Pink));
    assert!(map.get(&c).is_none());
    assert_eq!(map.len(), 0);
}

#[test]
fn marble_map_remove_color_filters() {
    let mut map = MarbleMap::new();
    map.insert(HexCoord::new(0, 0), Marble::Red);
    map.insert(HexCoord::new(1, 0), Marble::Blue);
    map.insert(HexCoord::new(2, 0), Marble::Red);
    map.remove_color(Marble::Red);
    assert_eq!(map.len(), 1);
    assert_eq!(map.get(&HexCoord::new(1, 0)), Some(&Marble::Blue));
}

#[test]
fn credits_screen_carries_the_full_text() {
    let credits = ModeCredits::new();
    assert_eq!(credits.message, CREDITS_TEXT);
    assert!(credits.message.contains("WRITTEN IN RUST WITH MACROQUAD"));
    assert!(credits.message.contains("GUEST TRACK"));
    assert!(credits.message.starts_with("HAXAGON v0.1.0"));
}

#[test]
fn classic_preset_values() {
    let s = BoardSettings::classic();
    assert_eq!(s.radius, 5);
    assert_eq!(s.border_width, 2);
    assert_eq!(s.spawn_multiplier_permille, 1000);
    assert!(s.gravity);
    assert_eq!(s.clear_blob_size, 4);
    assert_eq!(s.marble_color_count, 6);
    assert_eq!(s.mode_key, Some(BoardSettingsModeKey::Classic));
}

#[test]
fn advanced_preset_values() {
    let s = BoardSettings::advanced();
    assert_eq!(s.radius, 6);
    assert_eq!(s.border_width, 3);
    assert_eq!(s.spawn_multiplier_permille, 1200);
    assert!(s.gravity);
    assert_eq!(s.clear_blob_size, 4);
    assert_eq!(s.marble_color_count, 7);
    assert_eq!(s.mode_key, Some(BoardSettingsModeKey::Advanced));
}

#[test]
fn no_gravity_preset_values() {
    let s = BoardSettings::no_gravity();
    assert_eq!(s.radius, 3);
    assert_eq!(s.border_width, 2);
    assert_eq!(s.spawn_multiplier_permille, 800);
    assert!(!s.gravity);
    assert_eq!(s.clear_blob_size, 4);
    assert_eq!(s.marble_color_count, 4);
    assert_eq!(s.mode_key, Some(BoardSettingsModeKey::NoGravity));
}
