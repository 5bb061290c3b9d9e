//! Board construction, spawn planning, gravity settling, and the blob
//! finder.

use haxagon::action::BoardAction;
use haxagon::board::Board;
use haxagon::hex::HexCoord;
use haxagon::marble::Marble;
use haxagon::marble_map::MarbleMap;
use haxagon::settings::BoardSettings;

/// How many cells a board of the given radius has.
fn cells(radius: i64) -> i64 {
    3 * radius * radius + 3 * radius + 1
}

/// The local fall rule, recomputed from the public surface.
fn can_fall(board: &Board, c: HexCoord) -> bool {
    let g = c.gravity_dir();
    let forward = c.step(g);
    let left = c.step(g.rotate(5));
    let right = c.step(g.rotate(1));
    let solids = [forward, left, right]
        .iter()
        .filter(|t| board.is_solid(t))
        .count();
    solids < 2
}

#[test]
fn new_board_fills_the_border_rings() {
    let board = Board::new(BoardSettings::classic());
    // rings at distance 4 and 5 of a radius-5 board
    assert_eq!(board.get_marbles().len() as i64, cells(5) - cells(3));
    let center = HexCoord::new(0, 0);
    for c in board.get_marbles().keys() {
        let d = c.distance(&center);
        assert!(d >= 4 && d <= 5);
    }
}

#[test]
fn new_board_never_starts_with_a_clearable_blob() {
    for _ in 0..5 {
        let board = Board::new(BoardSettings::classic());
        assert!(board.find_blobs().is_empty());
        let board = Board::new(BoardSettings::advanced());
        assert!(board.find_blobs().is_empty());
    }
}

#[test]
fn new_board_plans_the_first_spawn_on_the_free_ring() {
    let board = Board::new(BoardSettings::classic());
    assert_eq!(board.next_spawn_point(), Some(HexCoord::new(3, 0)));
    assert_eq!(board.score(), 0);
    assert!(board.next_action().is_none());
}

#[test]
fn spawn_fires_on_the_classic_schedule() {
    let mut board = Board::new(BoardSettings::classic());
    let before = board.get_marbles().len();
    for _ in 0..59 {
        assert!(!board.tick());
    }
    assert_eq!(board.get_marbles().len(), before);
    assert!(!board.tick());
    assert_eq!(board.get_marbles().len(), before + 1);
}

#[test]
fn spawn_fires_faster_on_the_advanced_schedule() {
    // the 60-tick base interval divided by the 1.2 multiplier is 50
    let mut board = Board::new(BoardSettings::advanced());
    let before = board.get_marbles().len();
    for _ in 0..49 {
        assert!(!board.tick());
    }
    assert_eq!(board.get_marbles().len(), before);
    assert!(!board.tick());
    assert_eq!(board.get_marbles().len(), before + 1);
    assert_eq!(board.next_spawn_timer(), 0);
}

#[test]
fn planned_spawn_point_is_in_bounds_and_empty() {
    let mut board = Board::new(BoardSettings::classic());
    for _ in 0..200 {
        if board.tick() {
            panic!("the session should survive this long");
        }
        if let Some(p) = board.next_spawn_point() {
            assert!(board.is_in_bounds(&p));
            assert!(board.get_marble(&p).is_none());
        }
    }
}

#[test]
fn board_settles_after_an_action_under_gravity() {
    let mut board = Board::new(BoardSettings::classic());
    board.push_action(BoardAction::DeleteColor(Marble::Red));
    for _ in 0..31 {
        assert!(!board.tick());
    }
    for c in board.get_marbles().keys() {
        assert!(!can_fall(&board, c));
    }
}

#[test]
fn find_blobs_respects_the_size_floor() {
    let settings = BoardSettings {
        radius: 4,
        border_width: 0,
        gravity: false,
        clear_blob_size: 4,
        spawn_multiplier_permille: 1000,
        marble_color_count: 6,
        mode_key: None,
    };
    let mut map = MarbleMap::new();
    // a blob of three (too small) and a blob of four
    map.insert(HexCoord::new(-3, 0), Marble::Red);
    map.insert(HexCoord::new(-2, 0), Marble::Red);
    map.insert(HexCoord::new(-1, 0), Marble::Red);
    map.insert(HexCoord::new(0, 1), Marble::Blue);
    map.insert(HexCoord::new(1, 1), Marble::Blue);
    map.insert(HexCoord::new(2, 1), Marble::Blue);
    map.insert(HexCoord::new(3, 1), Marble::Blue);
    let board = Board::from_marbles(settings, map);
    let blobs = board.find_blobs();
    assert_eq!(blobs.len(), 1);
    assert_eq!(blobs[0].len(), 4);
    for c in &blobs[0] {
        assert_eq!(board.get_marble(c), Some(&Marble::Blue));
    }
}

#[test]
fn full_single_cell_board_loses_after_spawning() {
    let settings = BoardSettings {
        radius: 0,
        border_width: 0,
        gravity: false,
        clear_blob_size: 4,
        spawn_multiplier_permille: 1000,
        marble_color_count: 1,
        mode_key: None,
    };
    let mut board = Board::new(settings);
    assert_eq!(board.get_marbles().len(), 0);
    assert_eq!(board.next_spawn_point(), Some(HexCoord::new(0, 0)));
    // the first spawn fills the only cell and leaves nowhere to plan
    for _ in 0..60 {
        assert!(!board.tick());
    }
    assert_eq!(board.get_marbles().len(), 1);
    assert!(board.next_spawn_point().is_none());
    // the next spawn attempt is the loss
    let mut died = false;
    for _ in 0..60 {
        if board.tick() {
            died = true;
            break;
        }
    }
    assert!(died);
}

#[test]
fn is_solid_covers_walls_and_marbles() {
    let mut map = MarbleMap::new();
    map.insert(HexCoord::new(1, 0), Marble::Red);
    let settings = BoardSettings {
        radius: 2,
        border_width: 0,
        gravity: true,
        clear_blob_size: 4,
        spawn_multiplier_permille: 1000,
        marble_color_count: 6,
        mode_key: None,
    };
    let board = Board::from_marbles(settings, map);
    assert!(board.is_solid(&HexCoord::new(1, 0)));
    assert!(board.is_solid(&HexCoord::new(3, 0)));
    assert!(!board.is_solid(&HexCoord::new(0, 0)));
    assert!(board.is_in_bounds(&HexCoord::new(2, 0)));
    assert!(!board.is_in_bounds(&HexCoord::new(3, 0)));
    assert_eq!(board.radius(), 2);
}

#[test]
fn buried_spawn_indicator_is_planned_afresh() {
    // a radius-2 board with one seeded ring: the first spawn lands on
    // (1,0) and the indicator moves to (1,-1); a cycle then buries the
    // indicator, and the next free cell (0,-1) is planned instead
    let settings = BoardSettings {
        radius: 2,
        border_width: 1,
        gravity: false,
        clear_blob_size: 4,
        spawn_multiplier_permille: 1000,
        marble_color_count: 6,
        mode_key: None,
    };
    let mut board = Board::new(settings);
    assert_eq!(board.next_spawn_point(), Some(HexCoord::new(1, 0)));
    for _ in 0..60 {
        assert!(!board.tick());
    }
    assert!(board.get_marble(&HexCoord::new(1, 0)).is_some());
    assert_eq!(board.next_spawn_point(), Some(HexCoord::new(1, -1)));
    board.push_action(BoardAction::Cycle(vec![HexCoord::new(2, 0), HexCoord::new(1, -1)]));
    for _ in 0..10 {
        assert!(!board.tick());
    }
    assert!(board.get_marble(&HexCoord::new(1, -1)).is_some());
    assert!(board.get_marble(&HexCoord::new(2, 0)).is_none());
    let planned = board.next_spawn_point().expect("a free cell remains");
    assert_eq!(planned, HexCoord::new(0, -1));
    assert!(board.get_marble(&planned).is_none());
}

#[test]
fn gravity_pulls_a_lone_marble_to_the_rim() {
    let settings = BoardSettings {
        radius: 3,
        border_width: 0,
        gravity: true,
        clear_blob_size: 4,
        spawn_multiplier_permille: 1000,
        marble_color_count: 6,
        mode_key: None,
    };
    let mut map = MarbleMap::new();
    map.insert(HexCoord::new(1, 0), Marble::Red);
    let mut board = Board::from_marbles(settings, map);
    // executing any action runs the gravity pass
    board.push_action(BoardAction::DeleteColor(Marble::Pink));
    for _ in 0..30 {
        assert!(!board.tick());
    }
    let keys = board.get_marbles().keys();
    assert_eq!(keys.len(), 1);
    let center = HexCoord::new(0, 0);
    assert_eq!(keys[0].distance(&center), 3);
}
