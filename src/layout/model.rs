//! The layer switcher as a state machine over plain values: its state, and
//! what each input does to it.
use vstd::prelude::*;

use super::keys::KeyGroupView;
use super::layer::{event_used_keys, keymap_used_keys, Layer};
use super::switcher::{KeyReleaseMode, LayerStackEntry};
use super::types::{status_is_active, KeyCoords, Keycode, KeymapEvent, LayerId, LayerStatus, Millis};
use crate::kbd_events::KeyStateChange;

verus! {

/// The coordinate that tags key events of layer activation rather than of a
/// physical key.
pub open spec fn spec_layer_key() -> KeyCoords {
    KeyCoords(255, 255, 255)
}

pub fn layer_key() -> (r: KeyCoords)
    ensures
        r == spec_layer_key(),
{
    KeyCoords(255, 255, 255)
}

/// The key press duration threshold that tells a tap from a hold.
pub const HOLD_THRESHOLD_MS: Millis = 200;

/// A recorded press that still owes a release.
pub ghost struct PressView {
    pub layer: LayerId,
    pub coords: KeyCoords,
    pub mode: KeyReleaseMode,
    pub group: KeyGroupView,
    pub time: Millis,
}

/// The runtime state of a layer switcher.
pub ghost struct SwitcherView {
    /// Status of each layer, by layer index
    pub stack: Seq<LayerStackEntry>,
    /// Presses that still owe a release, at most one per coordinate
    pub presses: Seq<PressView>,
    /// Key events queued for the host, oldest first
    pub emitted: Seq<(Keycode, bool)>,
    /// For each queued key event, the key it was emitted for
    pub origins: Seq<KeyCoords>,
}

/// Time from `t0` to `t`; zero when the clock went backwards.
pub open spec fn elapsed(t: Millis, t0: Millis) -> Millis {
    if t >= t0 {
        (t - t0) as Millis
    } else {
        0
    }
}

/// Computes `elapsed(t, t0)`.
pub fn elapsed_ms(t: Millis, t0: Millis) -> (r: Millis)
    ensures
        r == elapsed(t, t0),
{
    if t >= t0 {
        t - t0
    } else {
        0
    }
}

/// `keys` each with the same pressed flag.
pub open spec fn key_events(keys: Seq<Keycode>, pressed: bool) -> Seq<(Keycode, bool)> {
    Seq::new(keys.len(), |i: int| (keys[i], pressed))
}

/// `keys` in reverse order.
pub open spec fn rev_keys(keys: Seq<Keycode>) -> Seq<Keycode> {
    Seq::new(keys.len(), |i: int| keys[keys.len() - 1 - i])
}

/// A press and a release of each key in turn.
pub open spec fn click_events(keys: Seq<Keycode>) -> Seq<(Keycode, bool)>
    decreases keys.len(),
{
    if keys.len() == 0 {
        seq![]
    } else {
        click_events(keys.drop_last()) + seq![(keys.last(), true), (keys.last(), false)]
    }
}

/// The first press record for `c` at index `i` or later.
pub open spec fn find_press_from(ps: Seq<PressView>, c: KeyCoords, i: int) -> Option<int>
    decreases ps.len() - i,
{
    if i < 0 || i >= ps.len() {
        None
    } else if ps[i].coords == c {
        Some(i)
    } else {
        find_press_from(ps, c, i + 1)
    }
}

/// The first press record for `c`.
pub open spec fn find_press(ps: Seq<PressView>, c: KeyCoords) -> Option<int> {
    find_press_from(ps, c, 0)
}

/// `e` queued on behalf of key `c`.
pub open spec fn emit(s: SwitcherView, e: Seq<(Keycode, bool)>, c: KeyCoords) -> SwitcherView {
    SwitcherView {
        emitted: s.emitted + e,
        origins: s.origins + Seq::new(e.len(), |i: int| c),
        ..s
    }
}

pub open spec fn set_status(s: SwitcherView, idx: LayerId, st: LayerStatus) -> SwitcherView {
    SwitcherView {
        stack: s.stack.update(
            idx as int,
            LayerStackEntry { status: st, active_keys: s.stack[idx as int].active_keys },
        ),
        ..s
    }
}

pub open spec fn set_active_keys(s: SwitcherView, idx: LayerId, held: bool) -> SwitcherView {
    SwitcherView {
        stack: s.stack.update(
            idx as int,
            LayerStackEntry { status: s.stack[idx as int].status, active_keys: held },
        ),
        ..s
    }
}

pub open spec fn push_press(s: SwitcherView, p: PressView) -> SwitcherView {
    SwitcherView { presses: s.presses.push(p), ..s }
}

pub open spec fn remove_press(s: SwitcherView, i: int) -> SwitcherView {
    SwitcherView { presses: s.presses.remove(i), ..s }
}

/// Side effects of a layer becoming active: its active keys go down.
pub open spec fn on_activation(layers: Seq<Layer>, s: SwitcherView, idx: LayerId) -> SwitcherView {
    set_active_keys(
        emit(s, key_events(layers[idx as int].on_active_keys@, true), spec_layer_key()),
        idx,
        true,
    )
}

/// Side effects of a layer becoming inactive: its active keys, if held, go up.
pub open spec fn on_deactivation(
    layers: Seq<Layer>,
    s: SwitcherView,
    idx: LayerId,
) -> SwitcherView {
    if s.stack[idx as int].active_keys {
        set_active_keys(
            emit(s, key_events(layers[idx as int].on_active_keys@, false), spec_layer_key()),
            idx,
            false,
        )
    } else {
        s
    }
}

/// Any active non-base layer becomes passthrough.
pub open spec fn deactivate(layers: Seq<Layer>, s: SwitcherView, idx: LayerId) -> SwitcherView {
    if idx == 0 || idx >= s.stack.len() || !status_is_active(s.stack[idx as int].status) {
        s
    } else {
        on_deactivation(layers, set_status(s, idx, LayerStatus::LayerPassthrough), idx)
    }
}

/// Any non-base layer that is not disabled is deactivated, then disabled.
pub open spec fn disable(layers: Seq<Layer>, s: SwitcherView, idx: LayerId) -> SwitcherView {
    if idx == 0 || idx >= s.stack.len() || s.stack[idx as int].status
        == LayerStatus::LayerDisabled {
        s
    } else {
        set_status(deactivate(layers, s, idx), idx, LayerStatus::LayerDisabled)
    }
}

/// A passthrough layer becomes active, with its side effects; a layer that is
/// already active in another way becomes permanently active.
pub open spec fn activate(layers: Seq<Layer>, s: SwitcherView, idx: LayerId) -> SwitcherView {
    if idx >= s.stack.len() {
        s
    } else {
        match s.stack[idx as int].status {
            LayerStatus::LayerDisabled => s,
            LayerStatus::LayerActive => s,
            LayerStatus::LayerPassthrough => on_activation(
                layers,
                set_status(s, idx, LayerStatus::LayerActive),
                idx,
            ),
            _ => set_status(s, idx, LayerStatus::LayerActive),
        }
    }
}

/// A passthrough layer becomes active in status `st`, with its side effects.
pub open spec fn activate_as(
    layers: Seq<Layer>,
    s: SwitcherView,
    idx: LayerId,
    st: LayerStatus,
) -> SwitcherView {
    if idx < s.stack.len() && s.stack[idx as int].status == LayerStatus::LayerPassthrough {
        on_activation(layers, set_status(s, idx, st), idx)
    } else {
        s
    }
}

/// Layers `i` and up, other than `keep`, are deactivated in index order.
pub open spec fn deactivate_others(
    layers: Seq<Layer>,
    s: SwitcherView,
    keep: LayerId,
    i: int,
) -> SwitcherView
    decreases layers.len() - i,
{
    if i < 0 || i >= layers.len() {
        s
    } else {
        let s1 = if i != keep {
            deactivate(layers, s, i as LayerId)
        } else {
            s
        };
        deactivate_others(layers, s1, keep, i + 1)
    }
}

/// All non-base layers but `idx` are deactivated, then `idx` is activated;
/// nothing happens when `idx` is disabled.
pub open spec fn move_to(layers: Seq<Layer>, s: SwitcherView, idx: LayerId) -> SwitcherView {
    if idx >= s.stack.len() || s.stack[idx as int].status == LayerStatus::LayerDisabled {
        s
    } else {
        activate(layers, deactivate_others(layers, s, idx, 1), idx)
    }
}

/// Before a key of layer `l` fires: the layer's held active keys go up, in
/// reverse order, when the layer asks for that.
pub open spec fn before_key_press(layers: Seq<Layer>, s: SwitcherView, l: LayerId) -> SwitcherView {
    if l < layers.len() && l < s.stack.len() && layers[l as int].disable_active_on_press
        && s.stack[l as int].active_keys {
        set_active_keys(
            emit(s, key_events(rev_keys(layers[l as int].on_active_keys@), false), spec_layer_key()),
            l,
            false,
        )
    } else {
        s
    }
}

/// After a key of layer `l` is done: the active keys that were lifted for it
/// go down again, when the layer is still active.
pub open spec fn after_key_release(layers: Seq<Layer>, s: SwitcherView, l: LayerId) -> SwitcherView {
    if l < layers.len() && l < s.stack.len() && status_is_active(s.stack[l as int].status)
        && layers[l as int].disable_active_on_press && !s.stack[l as int].active_keys {
        set_active_keys(
            emit(s, key_events(layers[l as int].on_active_keys@, true), spec_layer_key()),
            l,
            true,
        )
    } else {
        s
    }
}

/// Firing a key group for key `c` on behalf of layer `src`.
pub open spec fn keygroup_press(
    layers: Seq<Layer>,
    s: SwitcherView,
    kg: KeyGroupView,
    c: KeyCoords,
    src: LayerId,
    t: Millis,
    force_click: bool,
) -> SwitcherView {
    let s1 = emit(before_key_press(layers, s, src), key_events(kg.mask, false), c);
    if kg.sequential {
        after_key_release(
            layers,
            emit(s1, click_events(kg.keys) + key_events(rev_keys(kg.mask), true), c),
            src,
        )
    } else if force_click {
        after_key_release(
            layers,
            emit(
                s1,
                key_events(kg.keys, true) + key_events(rev_keys(kg.keys), false) + key_events(
                    rev_keys(kg.mask),
                    true,
                ),
                c,
            ),
            src,
        )
    } else {
        push_press(
            emit(s1, key_events(kg.keys, true), c),
            PressView { layer: src, coords: c, mode: KeyReleaseMode::Reverse, group: kg, time: t },
        )
    }
}

/// The events that release a chord: its keys up in reverse, then its mask
/// down in reverse.
pub open spec fn chord_up_events(kg: KeyGroupView) -> Seq<(Keycode, bool)> {
    key_events(rev_keys(kg.keys), false) + key_events(rev_keys(kg.mask), true)
}

/// Releasing a chord that `keygroup_press` recorded.
pub open spec fn keygroup_release(
    layers: Seq<Layer>,
    s: SwitcherView,
    kg: KeyGroupView,
    c: KeyCoords,
    src: LayerId,
) -> SwitcherView {
    if kg.sequential {
        s
    } else {
        after_key_release(layers, emit(s, chord_up_events(kg), c), src)
    }
}

/// Outcome of looking up a key in one layer and its parents: `None` when the
/// lookup passes to lower layers, `Some(None)` when it swallows the key,
/// `Some(Some(a))` when action `a` applies. At most `fuel` parents are followed,
/// so an inheritance cycle swallows the key.
pub open spec fn lookup(layers: Seq<Layer>, i: LayerId, c: KeyCoords, fuel: nat) -> Option<
    Option<KeymapEvent>,
>
    decreases fuel,
{
    if i >= layers.len() {
        None
    } else {
        let a = layers[i as int].spec_key_event(c);
        match a {
            KeymapEvent::Pass => None,
            KeymapEvent::Inh => match layers[i as int].inherit {
                Some(p) => if p < layers.len() {
                    if fuel == 0 {
                        Some(None)
                    } else {
                        lookup(layers, p, c, (fuel - 1) as nat)
                    }
                } else {
                    bottom(layers[i as int].default_action)
                },
                None => bottom(layers[i as int].default_action),
            },
            _ => Some(Some(a)),
        }
    }
}

/// Outcome of an `Inh` that has no parent: the layer's default action.
pub open spec fn bottom(d: KeymapEvent) -> Option<Option<KeymapEvent>> {
    match d {
        KeymapEvent::Pass => None,
        KeymapEvent::Inh => Some(None),
        _ => Some(Some(d)),
    }
}

/// Resolution among the layers below index `n`: the topmost active layer whose
/// lookup does not pass, with the action found (`None`: the key is swallowed).
pub open spec fn resolve_below(
    layers: Seq<Layer>,
    stack: Seq<LayerStackEntry>,
    c: KeyCoords,
    n: nat,
) -> (LayerId, Option<KeymapEvent>)
    decreases n,
{
    if n == 0 {
        (0, None)
    } else {
        let i = (n - 1) as nat;
        if i < stack.len() && status_is_active(stack[i as int].status) {
            match lookup(layers, i as LayerId, c, layers.len()) {
                Some(r) => (i as LayerId, r),
                None => resolve_below(layers, stack, c, i),
            }
        } else {
            resolve_below(layers, stack, c, i)
        }
    }
}

/// The reporting layer and the action for key `c`.
pub open spec fn resolve(layers: Seq<Layer>, stack: Seq<LayerStackEntry>, c: KeyCoords) -> (
    LayerId,
    Option<KeymapEvent>,
) {
    resolve_below(layers, stack, c, stack.len())
}

/// What the action `a`, resolved from layer `src`, does when key `c` goes down.
pub open spec fn dispatch_press(
    layers: Seq<Layer>,
    s: SwitcherView,
    a: KeymapEvent,
    c: KeyCoords,
    src: LayerId,
    t: Millis,
) -> SwitcherView {
    match a {
        KeymapEvent::Kg(kg) => keygroup_press(layers, s, kg@, c, src, t, false),
        KeymapEvent::Klong(k, _) => push_press(
            s,
            PressView { layer: src, coords: c, mode: KeyReleaseMode::ForceClick, group: k@, time: t },
        ),
        KeymapEvent::Khl(k, _) => push_press(
            s,
            PressView { layer: src, coords: c, mode: KeyReleaseMode::ForceClick, group: k@, time: t },
        ),
        KeymapEvent::Khtl(k, _) => push_press(
            s,
            PressView { layer: src, coords: c, mode: KeyReleaseMode::ForceClick, group: k@, time: t },
        ),
        KeymapEvent::Lmove(i) => move_to(layers, s, i),
        KeymapEvent::Lhold(i) => activate_as(
            layers,
            s,
            i,
            LayerStatus::LayerActiveUntilKeyRelease(c),
        ),
        KeymapEvent::Ltap(i) => activate_as(
            layers,
            s,
            i,
            LayerStatus::LayerActiveUntilKeyReleaseTap(c),
        ),
        KeymapEvent::Lactivate(i) => activate(layers, s, i),
        KeymapEvent::Ldeactivate(i) => deactivate(layers, s, i),
        KeymapEvent::Ldisable(i) => disable(layers, s, i),
        KeymapEvent::LhtL(i, j) => activate_as(
            layers,
            s,
            i,
            LayerStatus::LayerHoldAndTapToL(c, t, j),
        ),
        KeymapEvent::LhtK(i, _) => activate_as(
            layers,
            s,
            i,
            LayerStatus::LayerHoldAndTapKey(c, t, src),
        ),
        _ => s,
    }
}

/// Layers `i` and up that wait for any key press are deactivated.
pub open spec fn retire_taps(layers: Seq<Layer>, s: SwitcherView, i: int) -> SwitcherView
    decreases layers.len() - i,
{
    if i < 0 || i >= layers.len() {
        s
    } else {
        let s1 = if i < s.stack.len() && s.stack[i].status
            == LayerStatus::LayerActiveUntilAnyKeyPress {
            deactivate(layers, s, i as LayerId)
        } else {
            s
        };
        retire_taps(layers, s1, i + 1)
    }
}

/// Key `c` goes down at time `t`. A key that still holds a press record is
/// already down, and nothing happens.
pub open spec fn press_step(layers: Seq<Layer>, s: SwitcherView, c: KeyCoords, t: Millis) -> SwitcherView {
    if find_press(s.presses, c).is_some() {
        s
    } else {
        let (src, ev) = resolve(layers, s.stack, c);
        let s1 = match ev {
            Some(a) => dispatch_press(layers, s, a, c, src, t),
            None => s,
        };
        retire_taps(layers, s1, 0)
    }
}

/// What the release of key `c` does to layer `idx`, by the layer's status.
pub open spec fn release_layer(
    layers: Seq<Layer>,
    s: SwitcherView,
    c: KeyCoords,
    t: Millis,
    idx: LayerId,
) -> SwitcherView {
    match s.stack[idx as int].status {
        LayerStatus::LayerActiveUntilKeyRelease(w) => if w == c {
            deactivate(layers, s, idx)
        } else {
            s
        },
        LayerStatus::LayerActiveUntilKeyReleaseTap(w) => if w == c {
            set_status(s, idx, LayerStatus::LayerActiveUntilAnyKeyPress)
        } else {
            s
        },
        LayerStatus::LayerHoldAndTapKey(w, t0, l) => if w == c {
            let s1 = deactivate(layers, s, idx);
            if elapsed(t, t0) < HOLD_THRESHOLD_MS && l < layers.len() {
                match layers[l as int].spec_key_event(w) {
                    KeymapEvent::LhtK(_, k) => keygroup_press(layers, s1, k@, c, l, t, true),
                    _ => s1,
                }
            } else {
                s1
            }
        } else {
            s
        },
        LayerStatus::LayerHoldAndTapToL(w, t0, next) => if w == c {
            let s1 = deactivate(layers, s, idx);
            if elapsed(t, t0) < HOLD_THRESHOLD_MS {
                activate_as(layers, s1, next, LayerStatus::LayerActiveUntilAnyKeyPress)
            } else {
                s1
            }
        } else {
            s
        },
        _ => s,
    }
}

/// The release of key `c` applied to layers `i` and up, in index order.
pub open spec fn release_layers(
    layers: Seq<Layer>,
    s: SwitcherView,
    c: KeyCoords,
    t: Millis,
    i: int,
) -> SwitcherView
    decreases layers.len() - i,
{
    if i < 0 || i >= layers.len() {
        s
    } else {
        let s1 = if i < s.stack.len() {
            release_layer(layers, s, c, t, i as LayerId)
        } else {
            s
        };
        release_layers(layers, s1, c, t, i + 1)
    }
}

/// Key `c` goes up at time `t`: layers waiting for it change, then its press
/// record, if any, is settled.
pub open spec fn release_step(layers: Seq<Layer>, s: SwitcherView, c: KeyCoords, t: Millis) -> SwitcherView {
    let s1 = release_layers(layers, s, c, t, 0);
    match find_press(s1.presses, c) {
        None => s1,
        Some(i) => {
            let p = s1.presses[i];
            let s2 = remove_press(s1, i);
            let s3 = if p.mode == KeyReleaseMode::ForceClick {
                keygroup_press(layers, s2, p.group, c, p.layer, t, true)
            } else {
                keygroup_release(layers, s2, p.group, c, p.layer)
            };
            after_key_release(layers, s3, p.layer)
        },
    }
}

/// Key `c` has been held since its press record was made, checked at time `t`.
/// Only a deferred click turns into its long press action.
pub open spec fn long_press_step(layers: Seq<Layer>, s: SwitcherView, c: KeyCoords, t: Millis) -> SwitcherView {
    match find_press(s.presses, c) {
        None => s,
        Some(i) => {
            let p = s.presses[i];
            if elapsed(t, p.time) <= HOLD_THRESHOLD_MS || p.layer >= layers.len() {
                s
            } else {
                match layers[p.layer as int].spec_key_event(c) {
                    KeymapEvent::Klong(_, long) => if p.mode == KeyReleaseMode::ForceClick {
                        keygroup_press(layers, remove_press(s, i), long@, c, p.layer, t, false)
                    } else {
                        s
                    },
                    KeymapEvent::Khtl(_, l) => if p.mode == KeyReleaseMode::ForceClick {
                        activate_as(
                            layers,
                            remove_press(s, i),
                            l,
                            LayerStatus::LayerActiveUntilAnyKeyPress,
                        )
                    } else {
                        s
                    },
                    KeymapEvent::Khl(_, l) => if p.mode == KeyReleaseMode::ForceClick {
                        activate(layers, remove_press(s, i), l)
                    } else {
                        s
                    },
                    _ => s,
                }
            }
        },
    }
}

/// What one input event does to the switcher.
pub open spec fn event_step(
    layers: Seq<Layer>,
    s: SwitcherView,
    ev: KeyStateChange<KeyCoords>,
    t: Millis,
) -> SwitcherView {
    match ev {
        KeyStateChange::Pressed(c) => press_step(layers, s, c, t),
        KeyStateChange::Released(c) => release_step(layers, s, c, t),
        KeyStateChange::Click(c) => release_step(layers, press_step(layers, s, c, t), c, t),
        KeyStateChange::LongPress(c) => long_press_step(layers, s, c, t),
    }
}

/// At most one press record per coordinate.
pub open spec fn presses_unique(ps: Seq<PressView>) -> bool {
    forall|i: int, j: int| 0 <= i < j < ps.len() ==> (#[trigger] ps[i]).coords != (#[trigger] ps[j]).coords
}

/// The base layer is active.
pub open spec fn base_active(s: SwitcherView) -> bool {
    s.stack.len() > 0 && s.stack[0].status == LayerStatus::LayerActive
}

/// Each queued key event has its origin.
pub open spec fn tagged(s: SwitcherView) -> bool {
    s.emitted.len() == s.origins.len()
}

/// What holds of a started switcher after every call: one status per layer,
/// the base layer active, at most one press record per coordinate, and an
/// origin for each queued key event.
pub open spec fn switcher_inv(layers: Seq<Layer>, s: SwitcherView) -> bool {
    &&& layers.len() > 0
    &&& s.stack.len() == layers.len()
    &&& tagged(s)
    &&& base_active(s)
    &&& presses_unique(s.presses)
}

/// `find_press_from` finds the first record for `c` from `i` on.
pub proof fn lemma_find_press_from(ps: Seq<PressView>, c: KeyCoords, i: int)
    requires
        0 <= i <= ps.len(),
    ensures
        match find_press_from(ps, c, i) {
            None => forall|j: int| i <= j < ps.len() ==> (#[trigger] ps[j]).coords != c,
            Some(k) => i <= k < ps.len() && ps[k].coords == c,
        },
    decreases ps.len() - i,
{
    if i < ps.len() && ps[i].coords != c {
        lemma_find_press_from(ps, c, i + 1);
    }
}

/// Removing the record for `c` from unique records leaves none for `c`.
pub proof fn lemma_remove_unique(ps: Seq<PressView>, c: KeyCoords, i: int)
    requires
        presses_unique(ps),
        0 <= i < ps.len(),
        ps[i].coords == c,
    ensures
        presses_unique(ps.remove(i)),
        find_press(ps.remove(i), c).is_none(),
{
    let r = ps.remove(i);
    assert forall|a: int, b: int| 0 <= a < b < r.len() implies (#[trigger] r[a]).coords
        != (#[trigger] r[b]).coords by {
        let a0 = if a < i { a } else { a + 1 };
        let b0 = if b < i { b } else { b + 1 };
        assert(r[a] == ps[a0] && r[b] == ps[b0]);
    }
    lemma_find_press_from(r, c, 0);
    if find_press(r, c).is_some() {
        let k = find_press(r, c).unwrap();
        let k0 = if k < i { k } else { k + 1 };
        assert(r[k] == ps[k0]);
    }
}

/// Adding a record for a coordinate that has none keeps the records unique.
pub proof fn lemma_push_unique(ps: Seq<PressView>, p: PressView)
    requires
        presses_unique(ps),
        find_press(ps, p.coords).is_none(),
    ensures
        presses_unique(ps.push(p)),
{
    lemma_find_press_from(ps, p.coords, 0);
    let r = ps.push(p);
    assert forall|a: int, b: int| 0 <= a < b < r.len() implies (#[trigger] r[a]).coords
        != (#[trigger] r[b]).coords by {
        assert(r[a] == ps[a]);
        if b < ps.len() {
            assert(r[b] == ps[b]);
        }
    }
}

/// The status layer `i` takes at start: its reset status; the base layer is
/// active.
pub open spec fn start_status(layers: Seq<Layer>, i: int) -> LayerStatus {
    if i == 0 {
        LayerStatus::LayerActive
    } else {
        layers[i].status_on_reset
    }
}

/// The key-downs of the active keys of the layers below index `n` that start
/// active, in layer order.
pub open spec fn start_presses(layers: Seq<Layer>, n: nat) -> Seq<(Keycode, bool)>
    decreases n,
{
    if n == 0 {
        seq![]
    } else {
        start_presses(layers, (n - 1) as nat) + if status_is_active(
            start_status(layers, n - 1),
        ) {
            key_events(layers[n - 1].on_active_keys@, true)
        } else {
            seq![]
        }
    }
}

/// The state `start` gives: every layer in its start status, the active keys
/// of the layers that start active pressed and marked held, no presses.
pub open spec fn start_state(layers: Seq<Layer>) -> SwitcherView {
    let emitted = start_presses(layers, layers.len());
    SwitcherView {
        stack: Seq::new(
            layers.len(),
            |i: int|
                LayerStackEntry {
                    status: start_status(layers, i),
                    active_keys: status_is_active(start_status(layers, i)),
                },
        ),
        presses: seq![],
        emitted,
        origins: Seq::new(emitted.len(), |i: int| spec_layer_key()),
    }
}

/// Every key code that layer `l` can emit: from its keymap, its default
/// action and its active keys.
pub open spec fn layer_emits(l: Layer, k: Keycode) -> bool {
    keymap_used_keys(l.keymap@).contains(k) || event_used_keys(l.default_action).contains(k)
        || l.on_active_keys@.contains(k)
}

/// Every key code that the layers can emit.
pub open spec fn layers_used_keys(layers: Seq<Layer>) -> Set<Keycode> {
    Set::new(|k: Keycode| exists|i: int| 0 <= i < layers.len() && #[trigger] layer_emits(layers[i], k))
}

} // verus!
