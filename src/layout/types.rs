//! Coordinates, key codes, layer statuses and the actions of the keymap.
use vstd::prelude::*;

use super::keys::KeyGroup;

verus! {

/// Index of a layer in the layer list; layer 0 is the base layer.
pub type LayerId = usize;

/// An operating-system key code (the evdev key number).
pub type Keycode = u16;

/// A point in time, in milliseconds of a monotonic clock.
pub type Millis = u64;

/// Address of one physical button: block, row, column.
#[derive(Clone, Copy, PartialEq, Eq, Structural, Debug, Hash)]
pub struct KeyCoords(pub u8, pub u8, pub u8);

/// Runtime status of a layer.
#[derive(Clone, Copy, PartialEq, Eq, Structural, Debug)]
pub enum LayerStatus {
    /// Layer active. Can only be deactivated explicitly.
    LayerActive,
    /// Layer inactive, does not participate in key resolution.
    LayerPassthrough,
    /// Layer active while the key is held down.
    LayerActiveUntilKeyRelease(KeyCoords),
    /// Layer active while the key is held down and until one additional
    /// keypress happens after the key is released.
    LayerActiveUntilKeyReleaseTap(KeyCoords),
    /// Layer active for one additional keypress.
    LayerActiveUntilAnyKeyPress,
    /// Layer active while the activation key is held down. On release this
    /// activates another layer for one keypress if the press was short.
    LayerHoldAndTapToL(KeyCoords, Millis, LayerId),
    /// Layer active while the recorded key is held down. On release this
    /// clicks the key group of the recorded layer's cell if the press was short.
    LayerHoldAndTapKey(KeyCoords, Millis, LayerId),
    /// Layer unconditionally disabled, does not participate in key resolution
    /// and can only be enabled explicitly.
    LayerDisabled,
}

/// Whether a layer in this status takes part in key resolution.
pub open spec fn status_is_active(st: LayerStatus) -> bool {
    st != LayerStatus::LayerDisabled && st != LayerStatus::LayerPassthrough
}

/// [block][row][column] grid of actions.
pub type Keymap = Vec<Vec<Vec<KeymapEvent>>>;

/// The action bound to one cell of a layer's keymap.
#[derive(Clone, Debug)]
pub enum KeymapEvent {
    /// No effect, no inheritance
    No,
    /// Inherit effect from layer.inherit layer
    Inh,
    /// No effect, check other active layers next
    Pass,
    /// Map key press/release to a key group
    Kg(KeyGroup),
    /// If a key is released quickly click the first group,
    /// but when it is still pressed after the hold threshold, press the second group
    /// and release it on key release.
    Klong(KeyGroup, KeyGroup),
    /// A short press for key, long press for activating a layer
    Khl(KeyGroup, LayerId),
    /// A short press for key, long press for activating a tap layer (Ltap)
    Khtl(KeyGroup, LayerId),
    /// Deactivate all layers except the base, then activate the parameter
    Lmove(LayerId),
    /// Activate a layer
    Lactivate(LayerId),
    /// Deactivate a layer
    Ldeactivate(LayerId),
    /// Permanently disable a layer
    Ldisable(LayerId),
    /// Activate layer while the initiating key is kept pressed. Deactivate on release.
    Lhold(LayerId),
    /// Activate layer while the initiating key is kept pressed. Deactivate after one additional key
    /// is pressed once the activating key is released. (Dead key behavior)
    Ltap(LayerId),
    /// Activate the first layer on press and deactivate on release. Additionally,
    /// if the press was short, activate the second layer for one keypress.
    LhtL(LayerId, LayerId),
    /// Activate the layer on press and deactivate on release. Additionally,
    /// if the press was short, click the key group.
    LhtK(LayerId, KeyGroup),
}

} // verus!
