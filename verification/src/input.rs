//! What is remembered of the pointer between frames.

use vstd::prelude::*;
use crate::math::point::Point;

verus! {

/// Where the pointer is, and where its left button last went down, both in
/// world space.
#[derive(Clone, Copy, Debug, PartialEq, Eq, Structural)]
pub struct MouseState {
    pub last_mouse_left_pressed_position: Point,
    pub mouse_position: Point,
}

impl Default for MouseState {
    fn default() -> (state: MouseState)
        ensures
            state == (MouseState {
                last_mouse_left_pressed_position: Point { x: 0, y: 0 },
                mouse_position: Point { x: 0, y: 0 },
            }),
    {
        MouseState {
            last_mouse_left_pressed_position: Point { x: 0, y: 0 },
            mouse_position: Point { x: 0, y: 0 },
        }
    }
}

/// Takes in the pointer's moves of one frame: the pointer is where the last
/// of them left it, or where it was if there is none.
pub fn print_mouse_events_system(state: &mut MouseState, moves: &Vec<Point>)
    ensures
        final(state).last_mouse_left_pressed_position == old(
            state,
        ).last_mouse_left_pressed_position,
        final(state).mouse_position == if moves@.len() > 0 {
            moves@.last()
        } else {
            old(state).mouse_position
        },
{
    let mut i: usize = 0;
    while i < moves.len()
        invariant
            i <= moves@.len(),
            state.last_mouse_left_pressed_position == old(
                state,
            ).last_mouse_left_pressed_position,
            state.mouse_position == if i > 0 {
                moves@[i - 1]
            } else {
                old(state).mouse_position
            },
        decreases moves@.len() - i,
    {
        state.mouse_position = moves[i];
        i = i + 1;
    }
}

} // verus!
