//! Laws of the layer switcher and the change detector, proved over their
//! models.
use vstd::prelude::*;

use super::layer::Layer;
use super::model::{
    activate_as, chord_up_events, deactivate, event_step, find_press,
    long_press_step, release_layer, release_layers, release_step,
    SwitcherView, HOLD_THRESHOLD_MS,
};
use super::switcher::KeyReleaseMode;
use super::types::{KeyCoords, LayerId, LayerStatus, Millis};
use crate::kbd_events::{is_long, tick_events, HeldButton, KeyStateChange};
use crate::xppen_hid::XpPenButtons;

verus! {

/// A click of key `c` does exactly what a press of `c` followed by a release
/// of `c` at the same time does.
pub proof fn lemma_click_is_press_then_release(
    layers: Seq<Layer>,
    s: SwitcherView,
    c: KeyCoords,
    t: Millis,
)
    ensures
        event_step(layers, s, KeyStateChange::Click(c), t) == event_step(
            layers,
            event_step(layers, s, KeyStateChange::Pressed(c), t),
            KeyStateChange::Released(c),
            t,
        ),
{
}

/// A button held for exactly the hold threshold is not long pressed; one
/// millisecond more is.
pub proof fn lemma_detector_threshold_is_strict(b: XpPenButtons, t0: Millis, reported: bool)
    requires
        t0 + HOLD_THRESHOLD_MS + 1 <= u64::MAX,
    ensures
        !is_long((t0 + HOLD_THRESHOLD_MS) as Millis, t0),
        is_long((t0 + HOLD_THRESHOLD_MS + 1) as Millis, t0),
        tick_events(seq![(b, t0, reported)], (t0 + HOLD_THRESHOLD_MS) as Millis) == Seq::<
            KeyStateChange<XpPenButtons>,
        >::empty(),
        tick_events(seq![(b, t0, reported)], (t0 + HOLD_THRESHOLD_MS + 1) as Millis) == seq![
            KeyStateChange::LongPress(b),
        ],
{
    let one: Seq<HeldButton> = seq![(b, t0, reported)];
    let empty = Seq::<KeyStateChange<XpPenButtons>>::empty();
    assert(one.drop_last() =~= Seq::<HeldButton>::empty());
    assert(one.last() == (b, t0, reported));
    let at = (t0 + HOLD_THRESHOLD_MS) as Millis;
    let after = (t0 + HOLD_THRESHOLD_MS + 1) as Millis;
    assert(tick_events(one.drop_last(), at) == empty);
    assert(tick_events(one.drop_last(), after) == empty);
    assert(tick_events(one, at) =~= empty);
    assert(tick_events(one, after) =~= seq![KeyStateChange::LongPress(b)]);
}

/// A long press of a key exactly the hold threshold after its press record
/// was made changes nothing.
pub proof fn lemma_long_press_at_threshold_is_ignored(
    layers: Seq<Layer>,
    s: SwitcherView,
    c: KeyCoords,
    i: int,
)
    requires
        find_press(s.presses, c) == Some(i),
        s.presses[i].time + HOLD_THRESHOLD_MS <= u64::MAX,
    ensures
        long_press_step(layers, s, c, (s.presses[i].time + HOLD_THRESHOLD_MS) as Millis) == s,
{
}

/// A hold-or-tap key released exactly the hold threshold after its press
/// only deactivates its hold layer: the tap layer is not activated.
pub proof fn lemma_hold_tap_release_at_threshold(
    layers: Seq<Layer>,
    s: SwitcherView,
    c: KeyCoords,
    t0: Millis,
    next: LayerId,
    idx: LayerId,
)
    requires
        idx < s.stack.len(),
        s.stack[idx as int].status == LayerStatus::LayerHoldAndTapToL(c, t0, next),
        t0 + HOLD_THRESHOLD_MS <= u64::MAX,
    ensures
        release_layer(layers, s, c, (t0 + HOLD_THRESHOLD_MS) as Millis, idx) == deactivate(
            layers,
            s,
            idx,
        ),
        t0 + HOLD_THRESHOLD_MS - 1 >= 0 ==> release_layer(
            layers,
            s,
            c,
            (t0 + HOLD_THRESHOLD_MS - 1) as Millis,
            idx,
        ) == activate_as(
            layers,
            deactivate(layers, s, idx),
            next,
            LayerStatus::LayerActiveUntilAnyKeyPress,
        ),
{
}

/// Whatever happened to the layers since, the release of a key that holds a
/// chord's press record emits the chord's release right after what the layer
/// changes of the release emit.
pub proof fn lemma_release_keeps_chord_record(
    layers: Seq<Layer>,
    s: SwitcherView,
    c: KeyCoords,
    t: Millis,
    i: int,
)
    requires
        find_press(s.presses, c) == Some(i),
        s.presses[i].mode == KeyReleaseMode::Reverse,
        !s.presses[i].group.sequential,
    ensures
        ({
            let s1 = release_layers(layers, s, c, t, 0);
            let up = chord_up_events(s.presses[i].group);
            release_step(layers, s, c, t).emitted.subrange(
                s1.emitted.len() as int,
                s1.emitted.len() + up.len() as int,
            ) == up
        }),
{
    lemma_release_layers_keeps_presses(layers, s, c, t, 0);
    let s1 = release_layers(layers, s, c, t, 0);
    let up = chord_up_events(s.presses[i].group);
    let r = release_step(layers, s, c, t);
    assert(r.emitted.subrange(s1.emitted.len() as int, s1.emitted.len() + up.len() as int) =~= up);
}

/// The layer changes of a release leave the press records alone.
pub proof fn lemma_release_layers_keeps_presses(
    layers: Seq<Layer>,
    s: SwitcherView,
    c: KeyCoords,
    t: Millis,
    i: int,
)
    ensures
        release_layers(layers, s, c, t, i).presses == s.presses,
    decreases layers.len() - i,
{
    if 0 <= i < layers.len() {
        let s1 = if i < s.stack.len() {
            release_layer(layers, s, c, t, i as LayerId)
        } else {
            s
        };
        lemma_release_layers_keeps_presses(layers, s1, c, t, i + 1);
    }
}

} // verus!
