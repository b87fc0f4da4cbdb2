use pocketmine::math::axis::Axis;
use pocketmine::math::facing::Facing;

#[test]
fn axis_from_int_and_names() {
    assert_eq!(Axis::from_int(0), Some(Axis::Y));
    assert_eq!(Axis::from_int(1), Some(Axis::Z));
    assert_eq!(Axis::from_int(2), Some(Axis::X));
    assert_eq!(Axis::from_int(3), None);
    assert_eq!(Axis::to_string(Axis::Y), Some("y"));
    assert_eq!(Axis::to_string(Axis::Z), Some("z"));
    assert_eq!(Axis::to_string(Axis::X), Some("x"));
}

#[test]
fn facing_ids_axes_and_signs() {
    let all = Facing::all();
    for (i, f) in all.iter().enumerate() {
        assert_eq!(Facing::id(*f), i as u8);
        assert_eq!(Facing::from_int(i as u8), Some(*f));
        assert_eq!(Facing::is_positive(*f), i % 2 == 1);
    }
    assert_eq!(Facing::from_int(6), None);
    assert_eq!(Facing::axis(Facing::Down), Axis::Y);
    assert_eq!(Facing::axis(Facing::South), Axis::Z);
    assert_eq!(Facing::axis(Facing::East), Axis::X);
    assert_eq!(Facing::horizontal(), [Facing::North, Facing::South, Facing::West, Facing::East]);
}

#[test]
fn facing_opposite_is_an_involution() {
    for f in Facing::all().iter() {
        let o = Facing::opposite(*f);
        assert_ne!(o, *f);
        assert_eq!(Facing::opposite(o), *f);
        assert_eq!(Facing::axis(o), Facing::axis(*f));
    }
    assert_eq!(Facing::opposite(Facing::Up), Facing::Down);
    assert_eq!(Facing::opposite(Facing::West), Facing::East);
}

#[test]
fn facing_rotate_y_cycles_the_horizontal_faces() {
    assert_eq!(Facing::rotate_y(Facing::North, true), Some(Facing::East));
    assert_eq!(Facing::rotate_y(Facing::East, true), Some(Facing::South));
    assert_eq!(Facing::rotate_y(Facing::South, true), Some(Facing::West));
    assert_eq!(Facing::rotate_y(Facing::West, true), Some(Facing::North));
    assert_eq!(Facing::rotate_y(Facing::North, false), Some(Facing::West));
    assert_eq!(Facing::rotate_y(Facing::Up, true), None);
}

#[test]
fn facing_rotate_other_axes() {
    assert_eq!(Facing::rotate_z(Facing::Up, true), Some(Facing::East));
    assert_eq!(Facing::rotate_z(Facing::East, true), Some(Facing::Down));
    assert_eq!(Facing::rotate_z(Facing::North, true), None);
    assert_eq!(Facing::rotate_x(Facing::Up, true), Some(Facing::North));
    assert_eq!(Facing::rotate_x(Facing::North, true), Some(Facing::Down));
    assert_eq!(Facing::rotate_x(Facing::Up, false), Some(Facing::South));
    assert_eq!(Facing::rotate(Facing::East, Axis::X, true), None);
}

#[test]
fn facing_rotate_four_times_is_identity() {
    for axis in [Axis::Y, Axis::Z, Axis::X] {
        for f in Facing::all().iter() {
            if let Some(a) = Facing::rotate(*f, axis, true) {
                let b = Facing::rotate(a, axis, true).unwrap();
                let c = Facing::rotate(b, axis, true).unwrap();
                let d = Facing::rotate(c, axis, true).unwrap();
                assert_eq!(d, *f);
                assert_eq!(Facing::rotate(a, axis, false), Some(*f));
            }
        }
    }
}

#[test]
fn facing_validate_and_names() {
    assert!(Facing::validate(5).is_ok());
    assert_eq!(Facing::validate(6), Err("Invalid direction 6".to_string()));
    assert_eq!(Facing::to_string(Facing::North), Some("north"));
    assert_eq!(Facing::to_string(Facing::Down), Some("down"));
}

#[test]
fn facing_offsets() {
    assert_eq!(Facing::get_offset(Facing::Down), [0, -1, 0]);
    assert_eq!(Facing::get_offset(Facing::Up), [0, 1, 0]);
    assert_eq!(Facing::get_offset(Facing::North), [0, 0, -1]);
    assert_eq!(Facing::get_offset(Facing::South), [0, 0, 1]);
    assert_eq!(Facing::get_offset(Facing::West), [-1, 0, 0]);
    assert_eq!(Facing::get_offset(Facing::East), [1, 0, 0]);
}
