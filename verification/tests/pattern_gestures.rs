//! The pattern validator and the loop classifier.

use haxagon::action::BoardAction;
use haxagon::board::Board;
use haxagon::hex::HexCoord;
use haxagon::marble::Marble;
use haxagon::marble_map::MarbleMap;
use haxagon::pattern::{is_pattern_valid, pattern_to_action, PatternExtensionValidity};
use haxagon::settings::BoardSettings;

fn triangle_map() -> (MarbleMap, HexCoord, HexCoord, HexCoord) {
    let a = HexCoord::new(0, 0);
    let b = HexCoord::new(1, 0);
    let c = HexCoord::new(0, 1);
    let mut map = MarbleMap::new();
    map.insert(a, Marble::Red);
    map.insert(b, Marble::Green);
    map.insert(c, Marble::Blue);
    (map, a, b, c)
}

/// The six cells around the center, in the order a clockwise drag visits
/// them.
fn ring_path() -> Vec<HexCoord> {
    vec![
        HexCoord::new(1, 0),
        HexCoord::new(1, -1),
        HexCoord::new(0, -1),
        HexCoord::new(-1, 0),
        HexCoord::new(-1, 1),
        HexCoord::new(0, 1),
        HexCoord::new(1, 0),
    ]
}

#[test]
fn triangle_continues_then_finishes() {
    let (map, a, b, c) = triangle_map();
    assert_eq!(is_pattern_valid(&vec![a], &map), PatternExtensionValidity::Continue);
    assert_eq!(is_pattern_valid(&vec![a, b], &map), PatternExtensionValidity::Continue);
    assert_eq!(is_pattern_valid(&vec![a, b, c], &map), PatternExtensionValidity::Continue);
    assert_eq!(is_pattern_valid(&vec![a, b, c, a], &map), PatternExtensionValidity::Finished);
}

#[test]
fn unoccupied_or_distant_cells_invalidate() {
    let (mut map, a, _, _) = triangle_map();
    let empty_cell = HexCoord::new(-1, 0);
    assert_eq!(
        is_pattern_valid(&vec![a, empty_cell], &map),
        PatternExtensionValidity::Invalid
    );
    let far = HexCoord::new(3, 0);
    map.insert(far, Marble::Yellow);
    assert_eq!(is_pattern_valid(&vec![a, far], &map), PatternExtensionValidity::Invalid);
}

#[test]
fn immediate_backtrack_invalidates() {
    let (map, a, b, _) = triangle_map();
    assert_eq!(is_pattern_valid(&vec![a, b, a], &map), PatternExtensionValidity::Invalid);
}

#[test]
fn crossing_the_middle_invalidates() {
    let mut map = MarbleMap::new();
    let p0 = HexCoord::new(0, 0);
    let p1 = HexCoord::new(1, 0);
    let p2 = HexCoord::new(1, 1);
    let p3 = HexCoord::new(0, 1);
    for p in [p0, p1, p2, p3] {
        map.insert(p, Marble::Cyan);
    }
    assert_eq!(
        is_pattern_valid(&vec![p0, p1, p2, p1], &map),
        PatternExtensionValidity::Invalid
    );
}

#[test]
fn hexagon_loop_becomes_delete_color() {
    let mut map = MarbleMap::new();
    for p in ring_path() {
        map.insert(p, Marble::Purple);
    }
    let action = pattern_to_action(&map, ring_path());
    assert!(matches!(action, BoardAction::DeleteColor(Marble::Purple)));
}

#[test]
fn mixed_color_hexagon_becomes_cycle() {
    let mut map = MarbleMap::new();
    for p in ring_path() {
        map.insert(p, Marble::Purple);
    }
    map.insert(HexCoord::new(0, -1), Marble::Red);
    let action = pattern_to_action(&map, ring_path());
    match action {
        BoardAction::Cycle(path) => {
            let mut expected = ring_path();
            expected.pop();
            assert_eq!(path, expected);
        },
        _ => panic!("a mixed loop must cycle"),
    }
}

#[test]
fn triangle_loop_becomes_cycle() {
    let (map, a, b, c) = triangle_map();
    let action = pattern_to_action(&map, vec![a, b, c, a]);
    match action {
        BoardAction::Cycle(path) => {
            assert_eq!(path, vec![a, b, c]);
        },
        _ => panic!("a triangle is no hexagon"),
    }
}

#[test]
fn apply_pattern_queues_action_and_clear() {
    let (map, a, b, c) = triangle_map();
    let settings = BoardSettings {
        radius: 3,
        border_width: 0,
        gravity: false,
        clear_blob_size: 4,
        spawn_multiplier_permille: 1000,
        marble_color_count: 6,
        mode_key: None,
    };
    let mut board = Board::from_marbles(settings, map);
    board.apply_pattern(vec![a, b, c, a]);
    assert!(matches!(board.next_action(), Some(BoardAction::Cycle(_))));
    // ten ticks execute the cycle, then the follow-up clear is skipped
    for _ in 0..11 {
        assert!(!board.tick());
    }
    assert!(board.next_action().is_none());
    assert_eq!(board.get_marble(&b), Some(&Marble::Red));
}
