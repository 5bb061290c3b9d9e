//! The coordinate module against the reference hex-grid library.

use haxagon::hex::{HexCoord, HexDir};
use hex2d::{Angle, Coordinate, Direction};

fn to_reference(c: HexCoord) -> Coordinate {
    Coordinate::new(c.x, c.y)
}

fn dir_of_index(k: u8) -> HexDir {
    HexDir::from_index(k)
}

fn reference_dir_index(d: Direction) -> u8 {
    match d {
        Direction::YZ => 0,
        Direction::XZ => 1,
        Direction::XY => 2,
        Direction::ZY => 3,
        Direction::ZX => 4,
        Direction::YX => 5,
    }
}

#[test]
fn distance_matches_reference() {
    for x1 in -4i32..=4 {
        for y1 in -4i32..=4 {
            for x2 in -4i32..=4 {
                for y2 in -4i32..=4 {
                    let a = HexCoord::new(x1, y1);
                    let b = HexCoord::new(x2, y2);
                    assert_eq!(a.distance(&b), to_reference(a).distance(to_reference(b)));
                }
            }
        }
    }
}

#[test]
fn steps_match_reference_neighbors() {
    for x in -4i32..=4 {
        for y in -4i32..=4 {
            let c = HexCoord::new(x, y);
            let neighbors = to_reference(c).neighbors();
            for k in 0u8..6 {
                let t = c.step(dir_of_index(k));
                assert_eq!((t.x, t.y), (neighbors[k as usize].x, neighbors[k as usize].y));
            }
        }
    }
}

#[test]
fn gravity_direction_matches_reference() {
    for x in -6i32..=6 {
        for y in -6i32..=6 {
            let c = HexCoord::new(x, y);
            let ours = c.dir_from_center().map(|d| d.index());
            let theirs = to_reference(c)
                .direction_from_center_cw()
                .map(reference_dir_index);
            assert_eq!(ours, theirs);
        }
    }
}

#[test]
fn rotation_matches_reference_angles() {
    let angles = [
        (0u8, Angle::Forward),
        (1u8, Angle::Right),
        (2u8, Angle::RightBack),
        (3u8, Angle::Back),
        (4u8, Angle::LeftBack),
        (5u8, Angle::Left),
    ];
    for k in 0u8..6 {
        let d = dir_of_index(k);
        for (steps, angle) in angles.iter() {
            let ours = d.rotate(*steps).index();
            let theirs = reference_dir_index(
                Direction::from_int(k as i32) + *angle,
            );
            assert_eq!(ours, theirs);
        }
    }
}
