use voxels::chunk::Coords;
use voxels::math::{V3i32, V3};
use voxels::stage::{Stage, StaleChunk};

fn at(x: i32, y: i32, z: i32) -> Coords {
    Coords::new(V3::new(x, y, z))
}

fn coords_of(v: V3i32) -> Coords {
    Coords::new(v)
}

/// A stage of the given radius around the origin in which every coordinate
/// of the window holds its own coordinate.
fn full_stage(radius: i32) -> Stage<V3i32> {
    let mut stage = Stage::new(radius, Coords::origin());
    for abs in stage.absolute_coords_iter() {
        assert!(stage.insert_absolute(abs, abs.unwrap()).is_none());
    }
    stage
}

#[test]
fn new_stage_is_empty_and_stamped_from_its_corner() {
    let mut stage: Stage<u8> = Stage::new(2, at(10, 20, 30));
    assert_eq!(stage.dims(), V3::new(4, 4, 4));
    assert_eq!(stage.relative_mins(), V3::new(-1, -1, -1));
    assert_eq!(stage.relative_maxs(), V3::new(3, 3, 3));
    assert_eq!(stage.relative_to_absolute(V3::new(1, -1, 2)), at(11, 19, 32));
    assert_eq!(stage.absolute_to_relative(at(11, 19, 32)), V3::new(1, -1, 2));
    let window = stage.absolute_coords_iter();
    assert_eq!(window.len(), 64);
    assert_eq!(window[0], at(9, 19, 29));
    assert_eq!(window[1], at(9, 19, 30));
    assert_eq!(window[63], at(12, 22, 32));
    for abs in &window {
        assert!(stage.at_absolute(*abs).is_none());
    }
    // nothing is held, so everything is missing, in row-major order
    let stale = stage.relocate(at(10, 20, 30));
    assert_eq!(stale.len(), 64);
    for (n, entry) in stale.iter().enumerate() {
        match entry {
            StaleChunk::Missing(abs) => assert_eq!(*abs, window[n]),
            StaleChunk::Evicted { .. } => panic!("nothing to evict"),
        }
        assert_eq!(entry.coords(), window[n]);
    }
}

#[test]
fn relative_walk_covers_the_window() {
    let stage: Stage<u8> = Stage::new(1, at(0, 0, 0));
    let mut it = stage.relative_coords_iter();
    let mut got = Vec::new();
    while let Some(rel) = it.next() {
        got.push(rel);
    }
    let mut expected = Vec::new();
    for x in 0..2 {
        for y in 0..2 {
            for z in 0..2 {
                expected.push(V3::new(x, y, z));
            }
        }
    }
    assert_eq!(got, expected);
}

#[test]
fn slots_are_found_by_the_coordinate_modulo_the_width() {
    let stage: Stage<u8> = Stage::new(3, at(100, -100, 7));
    assert_eq!(stage.abs_to_ijk(at(100, -100, 7)), Some(V3::new(4, 2, 1)));
    assert_eq!(stage.abs_to_ijk(at(98, -102, 5)), Some(V3::new(2, 0, 5)));
    assert_eq!(stage.abs_to_ijk(at(103, -97, 10)), Some(V3::new(1, 5, 4)));
    assert_eq!(stage.abs_to_ijk(at(97, -100, 7)), None);
    assert_eq!(stage.abs_to_ijk(at(104, -100, 7)), None);
    assert_eq!(stage.abs_to_ijk(at(i32::MIN, i32::MAX, 0)), None);
    assert_eq!(stage.rel_to_ijk(V3::new(0, 0, 0)), Some(V3::new(4, 2, 1)));
    assert_eq!(stage.rel_to_ijk(V3::new(-3, 0, 0)), None);
    assert_eq!(stage.rel_to_ijk(V3::new(3, 3, 3)), Some(V3::new(1, 5, 4)));
    assert_eq!(stage.rel_to_ijk(V3::new(3, 3, 4)), None);
    assert_eq!(stage.rel_to_ijk(V3::new(i32::MAX, 0, 0)), None);
}

#[test]
fn insert_and_look_up() {
    let mut stage: Stage<String> = Stage::new(2, at(0, 0, 0));
    assert_eq!(stage.insert_absolute(at(1, 1, 1), "a".to_string()), None);
    assert_eq!(stage.at_absolute(at(1, 1, 1)), Some(&"a".to_string()));
    assert_eq!(stage.at_relative(V3::new(1, 1, 1)), Some(&"a".to_string()));
    assert_eq!(stage.insert_absolute(at(1, 1, 1), "b".to_string()), Some("a".to_string()));
    stage.at_absolute_mut(at(1, 1, 1)).unwrap().push('!');
    assert_eq!(stage.at_absolute(at(1, 1, 1)), Some(&"b!".to_string()));
    stage.at_relative_mut(V3::new(1, 1, 1)).unwrap().push('?');
    assert_eq!(stage.at_absolute(at(1, 1, 1)), Some(&"b!?".to_string()));
    assert_eq!(stage.insert_relative(V3::new(-1, 2, 0), "c".to_string()), None);
    assert_eq!(stage.at_absolute(at(-1, 2, 0)), Some(&"c".to_string()));
    // outside the window nothing is held and nothing is taken
    assert_eq!(stage.insert_absolute(at(3, 0, 0), "lost".to_string()), None);
    assert_eq!(stage.at_absolute(at(3, 0, 0)), None);
    assert_eq!(stage.at_absolute(at(-2, 0, 0)), None);
    assert_eq!(stage.insert_relative(V3::new(0, 0, -2), "lost".to_string()), None);
    assert_eq!(stage.at_relative(V3::new(0, 0, -2)), None);
    assert!(stage.at_relative_mut(V3::new(0, 3, 0)).is_none());
    assert!(stage.at_absolute_mut(at(0, 0, 0)).is_none());
    // (-1, 2, 0) and (3, 2, 0) share a slot, which holds the first
    assert_eq!(stage.abs_to_ijk(at(-1, 2, 0)), Some(V3::new(3, 2, 0)));
    assert_eq!(stage.at_absolute(at(3, 2, 0)), None);
}

#[test]
fn relocate_to_the_same_centre_reports_nothing_once_filled() {
    let mut stage: Stage<V3i32> = Stage::new(2, at(0, 0, 0));
    let centre = at(7, -3, 2);
    let stale = stage.relocate(centre);
    assert_eq!(stale.len(), 64);
    for entry in stale {
        let abs = entry.coords();
        stage.insert_absolute(abs, abs.unwrap());
    }
    assert!(stage.relocate(centre).is_empty());
    assert!(stage.relocate(centre).is_empty());
    // moving by one along y and filling again settles again
    let stale = stage.relocate(centre + V3::new(0, 1, 0));
    assert_eq!(stale.len(), 16);
    for entry in stale {
        let abs = entry.coords();
        stage.insert_absolute(abs, abs.unwrap());
    }
    assert!(stage.relocate(centre + V3::new(0, 1, 0)).is_empty());
    for abs in stage.absolute_coords_iter() {
        assert_eq!(stage.at_absolute(abs), Some(&abs.unwrap()));
    }
}

#[test]
fn relocate_evicts_the_face_that_left_the_window() {
    let mut stage = full_stage(3);
    assert!(stage.relocate(Coords::origin()).is_empty());
    let stale = stage.relocate(at(1, 0, 0));
    // one row of the far -x face leaves for each row of the +x face that comes
    assert_eq!(stale.len(), 36);
    let mut old_seen = Vec::new();
    let mut n = 0;
    for y in -2..4 {
        for z in -2..4 {
            match &stale[n] {
                StaleChunk::Evicted { old_coords, new_coords, value } => {
                    assert_eq!(*old_coords, at(-2, y, z));
                    assert_eq!(*new_coords, at(4, y, z));
                    assert_eq!(*value, V3::new(-2, y, z));
                    assert!(!old_seen.contains(old_coords));
                    old_seen.push(*old_coords);
                },
                StaleChunk::Missing(_) => panic!("the slot held content"),
            }
            n += 1;
        }
    }
    // the slots of the new face are empty until they are filled
    for y in -2..4 {
        for z in -2..4 {
            assert_eq!(stage.at_absolute(at(4, y, z)), None);
            assert_eq!(stage.at_absolute(at(-2, y, z)), None);
        }
    }
    // what stayed in the window is where it was, and the report does not name it
    for x in -1..4 {
        for y in -2..4 {
            let stays = at(x, y, 1);
            assert_eq!(stage.at_absolute(stays), Some(&stays.unwrap()));
            for entry in &stale {
                assert!(entry.coords() != stays);
                if let StaleChunk::Evicted { old_coords, .. } = entry {
                    assert!(*old_coords != stays);
                }
            }
        }
    }
    // a second sweep finds the emptied slots missing
    let again = stage.relocate(at(1, 0, 0));
    assert_eq!(again.len(), 36);
    for entry in &again {
        match entry {
            StaleChunk::Missing(abs) => {
                assert_eq!(abs.unwrap().x, 4);
                assert!(!old_seen.contains(abs));
            },
            StaleChunk::Evicted { .. } => panic!("nothing left to evict"),
        }
    }
}

#[test]
fn relocate_far_away_evicts_everything() {
    let mut stage = full_stage(1);
    let stale = stage.relocate(at(1000, 1000, 1000));
    assert_eq!(stale.len(), 8);
    let mut values = Vec::new();
    for entry in stale {
        match entry {
            StaleChunk::Evicted { old_coords, new_coords, value } => {
                assert_eq!(coords_of(value), old_coords);
                let (o, n) = (old_coords.unwrap(), new_coords.unwrap());
                assert_eq!((o.x - n.x).rem_euclid(2), 0);
                assert_eq!((o.y - n.y).rem_euclid(2), 0);
                assert_eq!((o.z - n.z).rem_euclid(2), 0);
                values.push(value);
            },
            StaleChunk::Missing(_) => panic!("the slot held content"),
        }
    }
    values.sort_by_key(|v| (v.x, v.y, v.z));
    values.dedup();
    assert_eq!(values.len(), 8);
}

#[test]
fn stage_without_slots() {
    let mut stage: Stage<u8> = Stage::new(0, at(5, 5, 5));
    assert_eq!(stage.dims(), V3::new(0, 0, 0));
    assert!(stage.absolute_coords_iter().is_empty());
    assert!(stage.relocate(at(6, 6, 6)).is_empty());
    assert_eq!(stage.insert_absolute(at(6, 6, 6), 1), None);
    assert_eq!(stage.at_absolute(at(6, 6, 6)), None);
}
