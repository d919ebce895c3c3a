//! Userspace input translator for a small HID keypad: a change detector that
//! turns button snapshots into timed events, and a layered keymap engine that
//! turns those events into virtual key presses.

pub mod kbd_events;
pub mod layout;
pub mod xppen_hid;
