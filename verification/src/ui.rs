//! The state of the tool buttons: which action is chosen, and which button
//! shows as pressed.

use vstd::prelude::*;

verus! {

/// What the pointer does to the roads.
#[derive(Clone, Copy, Debug, PartialEq, Eq, Structural)]
pub enum RoadActions {
    Nothing,
    Build,
    Demolish,
}

/// Whether a button is down.
#[derive(Clone, Copy, Debug, PartialEq, Eq, Structural)]
pub enum ToggleState {
    Normal,
    Toggled,
}

/// A button that stays down until it is clicked again.
#[derive(Clone, Copy, Debug, PartialEq, Eq, Structural)]
pub struct ToggleButton {
    pub state: ToggleState,
}

/// The state of a button after a frame in which it was or was not clicked.
pub open spec fn after_click(state: ToggleState, clicked: bool) -> ToggleState {
    if clicked {
        match state {
            ToggleState::Normal => ToggleState::Toggled,
            ToggleState::Toggled => ToggleState::Normal,
        }
    } else {
        state
    }
}

/// Handles one button whose interaction changed in this frame. A click
/// turns the button over; letting it up gives the action up. A button that
/// is down afterwards makes its action the chosen one. The result says
/// whether the button is down.
pub fn button_system(
    current_action: &mut RoadActions,
    action: RoadActions,
    toggle_state: &mut ToggleButton,
    clicked: bool,
) -> (pressed: bool)
    ensures
        final(toggle_state).state == after_click(old(toggle_state).state, clicked),
        pressed == (final(toggle_state).state == ToggleState::Toggled),
        *final(current_action) == if pressed {
            action
        } else if clicked {
            RoadActions::Nothing
        } else {
            *old(current_action)
        },
{
    if clicked {
        match toggle_state.state {
            ToggleState::Normal => {
                toggle_state.state = ToggleState::Toggled;
            },
            ToggleState::Toggled => {
                toggle_state.state = ToggleState::Normal;
                *current_action = RoadActions::Nothing;
            },
        }
    }
    match toggle_state.state {
        ToggleState::Normal => false,
        ToggleState::Toggled => {
            *current_action = action;
            true
        },
    }
}

/// Lets a button up when another action than its own was chosen. The result
/// says whether it was let up.
pub fn toggle_button_sytem(
    current_action: RoadActions,
    action: RoadActions,
    toggle_state: &mut ToggleButton,
) -> (released: bool)
    ensures
        released == (action != current_action),
        final(toggle_state).state == if released {
            ToggleState::Normal
        } else {
            old(toggle_state).state
        },
{
    if action != current_action {
        toggle_state.state = ToggleState::Normal;
        true
    } else {
        false
    }
}

} // verus!
