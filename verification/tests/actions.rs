//! The action executor through `tick`: color deletion, blob clearing with
//! its scoring formula and cascade requeue, cycles, and the queue-skip.

use haxagon::action::BoardAction;
use haxagon::board::Board;
use haxagon::hex::HexCoord;
use haxagon::marble::Marble;
use haxagon::marble_map::MarbleMap;
use haxagon::settings::BoardSettings;

fn quiet_settings() -> BoardSettings {
    BoardSettings {
        radius: 4,
        border_width: 0,
        gravity: false,
        clear_blob_size: 4,
        spawn_multiplier_permille: 1000,
        marble_color_count: 6,
        mode_key: None,
    }
}

fn line_of(color: Marble, x_lo: i32, x_hi: i32) -> MarbleMap {
    let mut map = MarbleMap::new();
    let mut x = x_lo;
    while x <= x_hi {
        map.insert(HexCoord::new(x, 0), color);
        x += 1;
    }
    map
}

#[test]
fn delete_color_removes_exactly_that_color() {
    let mut map = MarbleMap::new();
    map.insert(HexCoord::new(0, 0), Marble::Red);
    map.insert(HexCoord::new(2, 0), Marble::Red);
    map.insert(HexCoord::new(0, 2), Marble::Red);
    map.insert(HexCoord::new(-2, 0), Marble::Blue);
    map.insert(HexCoord::new(0, -2), Marble::Blue);
    let mut board = Board::from_marbles(quiet_settings(), map);
    board.push_action(BoardAction::DeleteColor(Marble::Red));
    for _ in 0..30 {
        assert!(!board.tick());
    }
    assert_eq!(board.score(), 3);
    assert!(board.get_marble(&HexCoord::new(0, 0)).is_none());
    assert!(board.get_marble(&HexCoord::new(2, 0)).is_none());
    assert!(board.get_marble(&HexCoord::new(0, 2)).is_none());
    assert_eq!(board.get_marble(&HexCoord::new(-2, 0)), Some(&Marble::Blue));
    assert_eq!(board.get_marble(&HexCoord::new(0, -2)), Some(&Marble::Blue));
}

#[test]
fn clear_blobs_scores_six_marbles_as_six() {
    let map = line_of(Marble::Green, -2, 3);
    let mut board = Board::from_marbles(quiet_settings(), map);
    board.push_action(BoardAction::ClearBlobs(1));
    for _ in 0..20 {
        assert!(!board.tick());
    }
    assert_eq!(board.score(), 6);
    assert_eq!(board.get_marbles().len(), 0);
}

#[test]
fn clear_blobs_scores_seven_marbles_as_eight() {
    let map = line_of(Marble::Green, -3, 3);
    let mut board = Board::from_marbles(quiet_settings(), map);
    board.push_action(BoardAction::ClearBlobs(1));
    for _ in 0..20 {
        assert!(!board.tick());
    }
    assert_eq!(board.score(), 8);
    assert_eq!(board.get_marbles().len(), 0);
}

#[test]
fn clear_blobs_requeues_a_cascade_entry() {
    let map = line_of(Marble::Green, -2, 3);
    let mut board = Board::from_marbles(quiet_settings(), map);
    board.push_action(BoardAction::ClearBlobs(1));
    for _ in 0..20 {
        board.tick();
    }
    // the cascade entry sits at the front, waiting to find new blobs
    assert!(matches!(board.next_action(), Some(BoardAction::ClearBlobs(2))));
    // with nothing left to clear it is discarded for free
    board.tick();
    assert!(board.next_action().is_none());
}

#[test]
fn multiplier_and_blob_count_scale_the_score() {
    // two disjoint blobs of four, multiplier three:
    // (8 + max(8 - 6, 0)) * 3 * 2 = 60
    let mut map = MarbleMap::new();
    for x in 0..4 {
        map.insert(HexCoord::new(x, 1), Marble::Red);
        map.insert(HexCoord::new(x, -2), Marble::Blue);
    }
    let mut board = Board::from_marbles(quiet_settings(), map);
    board.push_action(BoardAction::ClearBlobs(3));
    for _ in 0..20 {
        assert!(!board.tick());
    }
    assert_eq!(board.score(), 60);
    assert_eq!(board.get_marbles().len(), 0);
}

#[test]
fn queue_skip_changes_nothing_but_the_queue() {
    let mut map = MarbleMap::new();
    map.insert(HexCoord::new(0, 0), Marble::Red);
    map.insert(HexCoord::new(1, 0), Marble::Blue);
    let mut board = Board::from_marbles(quiet_settings(), map);
    board.push_action(BoardAction::ClearBlobs(9));
    assert!(!board.tick());
    assert_eq!(board.score(), 0);
    assert_eq!(board.action_timer(), 0);
    assert!(board.next_action().is_none());
    assert_eq!(board.get_marble(&HexCoord::new(0, 0)), Some(&Marble::Red));
    assert_eq!(board.get_marble(&HexCoord::new(1, 0)), Some(&Marble::Blue));
}

#[test]
fn cycle_rotates_marbles_forward() {
    let a = HexCoord::new(0, 0);
    let b = HexCoord::new(1, 0);
    let c = HexCoord::new(0, 1);
    let mut map = MarbleMap::new();
    map.insert(a, Marble::Red);
    map.insert(b, Marble::Green);
    map.insert(c, Marble::Blue);
    let mut board = Board::from_marbles(quiet_settings(), map);
    board.push_action(BoardAction::Cycle(vec![a, b, c]));
    for _ in 0..10 {
        assert!(!board.tick());
    }
    assert_eq!(board.get_marble(&b), Some(&Marble::Red));
    assert_eq!(board.get_marble(&c), Some(&Marble::Green));
    assert_eq!(board.get_marble(&a), Some(&Marble::Blue));
    assert_eq!(board.score(), 0);
}

#[test]
fn cycle_carries_a_gap_along() {
    let a = HexCoord::new(0, 0);
    let b = HexCoord::new(1, 0);
    let c = HexCoord::new(0, 1);
    let mut map = MarbleMap::new();
    map.insert(a, Marble::Red);
    map.insert(b, Marble::Green);
    let mut board = Board::from_marbles(quiet_settings(), map);
    board.push_action(BoardAction::Cycle(vec![a, b, c]));
    for _ in 0..10 {
        assert!(!board.tick());
    }
    assert_eq!(board.get_marble(&b), Some(&Marble::Red));
    assert_eq!(board.get_marble(&c), Some(&Marble::Green));
    assert!(board.get_marble(&a).is_none());
}

#[test]
fn idle_tick_only_counts_the_spawn_timer() {
    let mut map = MarbleMap::new();
    map.insert(HexCoord::new(0, 0), Marble::Red);
    let mut board = Board::from_marbles(quiet_settings(), map);
    assert!(!board.tick());
    assert_eq!(board.score(), 0);
    assert_eq!(board.action_timer(), 0);
    assert_eq!(board.next_spawn_timer(), 1);
    assert_eq!(board.get_marbles().len(), 1);
}

#[test]
fn action_timer_counts_toward_execution() {
    let mut map = MarbleMap::new();
    map.insert(HexCoord::new(0, 0), Marble::Red);
    let mut board = Board::from_marbles(quiet_settings(), map);
    board.push_action(BoardAction::DeleteColor(Marble::Red));
    assert_eq!(board.action_timer(), 0);
    board.tick();
    assert_eq!(board.action_timer(), 1);
    board.tick();
    assert_eq!(board.action_timer(), 2);
}
