use vstd::prelude::*;

use crate::player::Direction;

verus! {

/// What an on-screen direction button reports in one frame: the new
/// pressed state, and `Some(direction)` while it is held, `Some(None)` on
/// the frame it is let go, `None` otherwise.
pub open spec fn button_step(
    was_pressed: bool,
    inside: bool,
    mouse_down: bool,
    direction: Direction,
) -> (bool, Option<Direction>) {
    let pressed = mouse_down && (inside || was_pressed);
    let report = if inside && mouse_down {
        Some(direction)
    } else if was_pressed && !mouse_down {
        Some(Direction::Stop)
    } else {
        None
    };
    (pressed, report)
}

/// The direction the keys ask for; when several are down, up wins over
/// right, right over down, and down over left.
pub open spec fn key_direction(up: bool, right: bool, down: bool, left: bool) -> Option<Direction> {
    if up {
        Some(Direction::Up)
    } else if right {
        Some(Direction::Right)
    } else if down {
        Some(Direction::Down)
    } else if left {
        Some(Direction::Left)
    } else {
        None
    }
}

/// The heading after the buttons' reports of one frame, taken in order:
/// each report of a real direction replaces the heading, releases leave it.
pub open spec fn heading_after(current: Direction, events: Seq<Option<Direction>>) -> Direction
    decreases events.len(),
{
    if events.len() == 0 {
        current
    } else {
        let before = heading_after(current, events.drop_last());
        match events.last() {
            Some(d) => if d != Direction::Stop {
                d
            } else {
                before
            },
            None => before,
        }
    }
}

/// One frame of a direction button, from whether the pointer is over it
/// and whether the mouse button is down.
pub fn button_update(
    was_pressed: bool,
    inside: bool,
    mouse_down: bool,
    direction: Direction,
) -> (r: (bool, Option<Direction>))
    ensures
        r == button_step(was_pressed, inside, mouse_down, direction),
{
    if inside {
        if mouse_down {
            return (true, Some(direction));
        } else {
            if was_pressed {
                return (false, Some(Direction::Stop));
            }
            return (false, None);
        }
    } else if was_pressed && !mouse_down {
        return (false, Some(Direction::Stop));
    }
    (was_pressed, None)
}

/// The direction asked for by the arrow or WASD keys that are down.
pub fn keyboard_direction(up: bool, right: bool, down: bool, left: bool) -> (r: Option<Direction>)
    ensures
        r == key_direction(up, right, down, left),
{
    if up {
        Some(Direction::Up)
    } else if right {
        Some(Direction::Right)
    } else if down {
        Some(Direction::Down)
    } else if left {
        Some(Direction::Left)
    } else {
        None
    }
}

/// The player's heading after one frame of input: the buttons' reports in
/// order, then the keyboard, which wins when any direction key is down.
pub fn steer(
    current: Direction,
    events: &Vec<Option<Direction>>,
    up: bool,
    right: bool,
    down: bool,
    left: bool,
) -> (r: Direction)
    ensures
        r == match key_direction(up, right, down, left) {
            Some(d) => d,
            None => heading_after(current, events@),
        },
{
    let mut heading = current;
    let mut i: usize = 0;
    while i < events.len()
        invariant
            i <= events@.len(),
            heading == heading_after(current, events@.subrange(0, i as int)),
        decreases events@.len() - i,
    {
        assert(events@.subrange(0, i + 1).drop_last() =~= events@.subrange(0, i as int));
        match events[i] {
            Some(d) => {
                if d != Direction::Stop {
                    heading = d;
                }
            },
            None => {},
        }
        i = i + 1;
    }
    assert(events@.subrange(0, events@.len() as int) =~= events@);
    match keyboard_direction(up, right, down, left) {
        Some(d) => d,
        None => heading,
    }
}

} // verus!
