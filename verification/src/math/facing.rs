//! The six directions a block face can point.
use crate::math::axis::Axis;
use crate::text::{decimal, decimal_string};
use vstd::prelude::*;

verus! {

/// A direction: its number is the axis number times two, plus one when it points along
/// the positive side of the axis.
#[derive(Debug, Clone, Copy, PartialEq, Eq, Hash, Structural)]
pub enum Facing {
    Down,
    Up,
    North,
    South,
    West,
    East,
}

impl Facing {
    /// The bit of a direction's number that marks the positive side of its axis.
    pub const FLAG_AXIS_POSITIVE: u8 = 1;

    /// The direction's number.
    pub open spec fn spec_id(self) -> u8 {
        match self {
            Facing::Down => 0,
            Facing::Up => 1,
            Facing::North => 2,
            Facing::South => 3,
            Facing::West => 4,
            Facing::East => 5,
        }
    }

    /// The axis a direction lies along.
    pub open spec fn spec_axis(self) -> Axis {
        match self {
            Facing::Down | Facing::Up => Axis::Y,
            Facing::North | Facing::South => Axis::Z,
            Facing::West | Facing::East => Axis::X,
        }
    }

    /// The direction the other way along the same axis.
    pub open spec fn spec_opposite(self) -> Facing {
        match self {
            Facing::Down => Facing::Up,
            Facing::Up => Facing::Down,
            Facing::North => Facing::South,
            Facing::South => Facing::North,
            Facing::West => Facing::East,
            Facing::East => Facing::West,
        }
    }

    /// A quarter turn clockwise about an axis, for a direction across it.
    pub open spec fn spec_clockwise(self, axis: Axis) -> Option<Facing> {
        match axis {
            Axis::Y => match self {
                Facing::North => Some(Facing::East),
                Facing::East => Some(Facing::South),
                Facing::South => Some(Facing::West),
                Facing::West => Some(Facing::North),
                _ => None,
            },
            Axis::Z => match self {
                Facing::Up => Some(Facing::East),
                Facing::East => Some(Facing::Down),
                Facing::Down => Some(Facing::West),
                Facing::West => Some(Facing::Up),
                _ => None,
            },
            Axis::X => match self {
                Facing::Up => Some(Facing::North),
                Facing::North => Some(Facing::Down),
                Facing::Down => Some(Facing::South),
                Facing::South => Some(Facing::Up),
                _ => None,
            },
        }
    }

    /// A quarter turn about an axis: clockwise, or the opposite of the clockwise turn.
    pub open spec fn spec_rotate(self, axis: Axis, clockwise: bool) -> Option<Facing> {
        match self.spec_clockwise(axis) {
            Some(f) => Some(
                if clockwise {
                    f
                } else {
                    f.spec_opposite()
                },
            ),
            None => None,
        }
    }

    /// The unit step of a direction, as (x, y, z).
    pub open spec fn spec_offset(self) -> Seq<i8> {
        match self {
            Facing::Down => seq![0i8, -1i8, 0i8],
            Facing::Up => seq![0i8, 1i8, 0i8],
            Facing::North => seq![0i8, 0i8, -1i8],
            Facing::South => seq![0i8, 0i8, 1i8],
            Facing::West => seq![-1i8, 0i8, 0i8],
            Facing::East => seq![1i8, 0i8, 0i8],
        }
    }

    /// Every direction, in number order.
    pub fn all() -> (r: [Facing; 6])
        ensures
            forall|i: int| 0 <= i < 6 ==> (#[trigger] r@[i]).spec_id() == i,
    {
        [Facing::Down, Facing::Up, Facing::North, Facing::South, Facing::West, Facing::East]
    }

    /// The four directions across the vertical axis.
    pub fn horizontal() -> (r: [Facing; 4])
        ensures
            r@ == seq![Facing::North, Facing::South, Facing::West, Facing::East],
    {
        let r = [Facing::North, Facing::South, Facing::West, Facing::East];
        assert(r@ =~= seq![Facing::North, Facing::South, Facing::West, Facing::East]);
        r
    }

    /// The direction with a number, if any.
    pub fn from_int(direction: u8) -> (r: Option<Self>)
        ensures
            direction <= 5 ==> (r matches Some(f) && f.spec_id() == direction),
            direction > 5 ==> r is None,
    {
        match direction {
            0 => Some(Facing::Down),
            1 => Some(Facing::Up),
            2 => Some(Facing::North),
            3 => Some(Facing::South),
            4 => Some(Facing::West),
            5 => Some(Facing::East),
            _ => None,
        }
    }

    /// The direction's number.
    pub fn id(direction: Facing) -> (r: u8)
        ensures
            r == direction.spec_id(),
    {
        match direction {
            Facing::Down => 0,
            Facing::Up => 1,
            Facing::North => 2,
            Facing::South => 3,
            Facing::West => 4,
            Facing::East => 5,
        }
    }

    /// The axis of a direction: its number halved.
    pub fn axis(direction: Facing) -> (r: Axis)
        ensures
            r == direction.spec_axis(),
            r.spec_id() == direction.spec_id() / 2,
    {
        match direction {
            Facing::Down | Facing::Up => Axis::Y,
            Facing::North | Facing::South => Axis::Z,
            Facing::West | Facing::East => Axis::X,
        }
    }

    /// Whether a direction points along the positive side of its axis.
    pub fn is_positive(direction: Facing) -> (r: bool)
        ensures
            r == (direction.spec_id() % 2 == 1),
    {
        let d = Facing::id(direction);
        assert((d & 1u8 == 1u8) == (d % 2 == 1)) by (bit_vector);
        (d & Facing::FLAG_AXIS_POSITIVE) == Facing::FLAG_AXIS_POSITIVE
    }

    /// The direction the other way: the number with its lowest bit flipped.
    pub fn opposite(direction: Facing) -> (r: Facing)
        ensures
            r == direction.spec_opposite(),
            r.spec_id() == if direction.spec_id() % 2 == 0 {
                direction.spec_id() + 1
            } else {
                direction.spec_id() - 1
            },
    {
        match direction {
            Facing::Down => Facing::Up,
            Facing::Up => Facing::Down,
            Facing::North => Facing::South,
            Facing::South => Facing::North,
            Facing::West => Facing::East,
            Facing::East => Facing::West,
        }
    }

    /// The clockwise quarter turn about an axis, if the direction lies across it.
    fn clockwise(direction: Facing, axis: Axis) -> (r: Option<Facing>)
        ensures
            r == direction.spec_clockwise(axis),
    {
        match axis {
            Axis::Y => match direction {
                Facing::North => Some(Facing::East),
                Facing::East => Some(Facing::South),
                Facing::South => Some(Facing::West),
                Facing::West => Some(Facing::North),
                _ => None,
            },
            Axis::Z => match direction {
                Facing::Up => Some(Facing::East),
                Facing::East => Some(Facing::Down),
                Facing::Down => Some(Facing::West),
                Facing::West => Some(Facing::Up),
                _ => None,
            },
            Axis::X => match direction {
                Facing::Up => Some(Facing::North),
                Facing::North => Some(Facing::Down),
                Facing::Down => Some(Facing::South),
                Facing::South => Some(Facing::Up),
                _ => None,
            },
        }
    }

    /// A quarter turn about an axis; none for a direction along that axis.
    pub fn rotate(direction: Facing, axis: Axis, clockwise: bool) -> (r: Option<Facing>)
        ensures
            r == direction.spec_rotate(axis, clockwise),
    {
        match Facing::clockwise(direction, axis) {
            Some(rotated) => Some(
                if clockwise {
                    rotated
                } else {
                    Facing::opposite(rotated)
                },
            ),
            None => None,
        }
    }

    pub fn rotate_y(direction: Facing, clockwise: bool) -> (r: Option<Facing>)
        ensures
            r == direction.spec_rotate(Axis::Y, clockwise),
    {
        Facing::rotate(direction, Axis::Y, clockwise)
    }

    pub fn rotate_z(direction: Facing, clockwise: bool) -> (r: Option<Facing>)
        ensures
            r == direction.spec_rotate(Axis::Z, clockwise),
    {
        Facing::rotate(direction, Axis::Z, clockwise)
    }

    pub fn rotate_x(direction: Facing, clockwise: bool) -> (r: Option<Facing>)
        ensures
            r == direction.spec_rotate(Axis::X, clockwise),
    {
        Facing::rotate(direction, Axis::X, clockwise)
    }

    /// Accepts a direction number, or refuses it with a message.
    pub fn validate(facing: u8) -> (r: Result<(), String>)
        ensures
            r is Ok <==> facing <= 5,
            r matches Err(m) ==> m@ == "Invalid direction "@ + decimal(facing as nat),
    {
        if Facing::from_int(facing).is_some() {
            Ok(())
        } else {
            let mut message = "Invalid direction ".to_owned();
            message.append(decimal_string(facing as u64).as_str());
            Err(message)
        }
    }

    /// The direction's name.
    pub fn to_string(facing: Facing) -> (r: Option<&'static str>)
        ensures
            r matches Some(s) && s@ == match facing {
                Facing::Down => "down"@,
                Facing::Up => "up"@,
                Facing::North => "north"@,
                Facing::South => "south"@,
                Facing::West => "west"@,
                Facing::East => "east"@,
            },
    {
        match facing {
            Facing::Down => Some("down"),
            Facing::Up => Some("up"),
            Facing::North => Some("north"),
            Facing::South => Some("south"),
            Facing::West => Some("west"),
            Facing::East => Some("east"),
        }
    }

    /// The unit step of a direction, as [x, y, z].
    pub fn get_offset(facing: Facing) -> (r: [i8; 3])
        ensures
            r@ == facing.spec_offset(),
    {
        let r = match facing {
            Facing::Down => [0i8, -1, 0],
            Facing::Up => [0i8, 1, 0],
            Facing::North => [0i8, 0, -1],
            Facing::South => [0i8, 0, 1],
            Facing::West => [-1i8, 0, 0],
            Facing::East => [1i8, 0, 0],
        };
        assert(r@ =~= facing.spec_offset());
        r
    }
}

/// Turning the other way twice leads back: the opposite of the opposite is the direction,
/// and it lies on the same axis with the other sign.
pub proof fn lemma_opposite_involution(f: Facing)
    ensures
        f.spec_opposite().spec_opposite() == f,
        f.spec_opposite().spec_axis() == f.spec_axis(),
        f.spec_opposite() != f,
        f.spec_opposite().spec_offset() == f.spec_offset().map_values(|x: i8| (-x) as i8),
{
    assert(f.spec_opposite().spec_offset() =~= f.spec_offset().map_values(|x: i8| (-x) as i8));
}

/// A quarter turn is refused exactly for directions along the axis of the turn.
pub proof fn lemma_rotate_defined(f: Facing, axis: Axis, clockwise: bool)
    ensures
        f.spec_rotate(axis, clockwise) is None <==> f.spec_axis() == axis,
{
}

/// A turn one way and then the other leads back.
pub proof fn lemma_rotate_inverse(f: Facing, axis: Axis, clockwise: bool)
    requires
        f.spec_axis() != axis,
    ensures
        f.spec_rotate(axis, clockwise) is Some,
        f.spec_rotate(axis, clockwise).unwrap().spec_rotate(axis, !clockwise) == Some(f),
{
}

/// Four quarter turns the same way lead back, and two lead to the opposite direction.
pub proof fn lemma_rotate_cycle(f: Facing, axis: Axis, clockwise: bool)
    requires
        f.spec_axis() != axis,
    ensures
        f.spec_rotate(axis, clockwise) is Some,
        f.spec_rotate(axis, clockwise).unwrap().spec_rotate(axis, clockwise) == Some(
            f.spec_opposite(),
        ),
        f.spec_opposite().spec_rotate(axis, clockwise) is Some,
        f.spec_opposite().spec_rotate(axis, clockwise).unwrap().spec_rotate(axis, clockwise) == Some(
            f,
        ),
{
}

/// A quarter turn keeps a direction off the axis of the turn.
pub proof fn lemma_rotate_stays_across(f: Facing, axis: Axis, clockwise: bool)
    requires
        f.spec_axis() != axis,
    ensures
        f.spec_rotate(axis, clockwise) is Some,
        f.spec_rotate(axis, clockwise).unwrap().spec_axis() != axis,
        f.spec_rotate(axis, clockwise).unwrap().spec_axis() != f.spec_axis(),
{
}

} // verus!
