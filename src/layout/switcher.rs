//! The layer switcher: resolves key events against the layer stack, keeps
//! press records and queues the key events for the host. Every operation is
//! proved to do what its counterpart in the model says.
use vstd::prelude::*;

use super::keys::KeyGroup;
use super::layer::{event_get_used_keys, event_used_keys, keymap_used_keys, Layer};
use super::model::{
    activate, activate_as, after_key_release, base_active, before_key_press, click_events,
    deactivate, deactivate_others, disable, dispatch_press, elapsed_ms, emit, event_step,
    find_press, find_press_from, key_events, keygroup_press, keygroup_release, layer_key,
    layer_emits, layers_used_keys, lemma_find_press_from, lemma_push_unique, lemma_remove_unique,
    long_press_step, lookup, bottom, move_to, on_activation, on_deactivation, press_step,
    presses_unique, push_press, release_layer, release_layers, release_step, remove_press,
    resolve, resolve_below, retire_taps, rev_keys, set_active_keys, set_status, start_state,
    switcher_inv, tagged, PressView, SwitcherView, HOLD_THRESHOLD_MS, start_status,
    start_presses, spec_layer_key,
};
use super::types::{status_is_active, KeyCoords, Keycode, KeymapEvent, LayerId, LayerStatus, Millis};
use crate::kbd_events::KeyStateChange;

verus! {

/// How a recorded press is settled when its key goes up.
#[derive(Debug, Clone, Copy, PartialEq, Eq, Structural)]
pub enum KeyReleaseMode {
    /// The chord is down: release it, in reverse.
    Reverse,
    /// Nothing was emitted yet: click the group now.
    ForceClick,
}

/// Runtime status of one layer.
#[derive(Debug, Clone, Copy, PartialEq, Eq, Structural)]
pub struct LayerStackEntry {
    pub status: LayerStatus,
    /// Are the layer's active keys currently held down?
    pub active_keys: bool,
}

/// A press that still owes a release.
pub struct Press {
    /// The reporting layer of the press
    pub layer: LayerId,
    pub coords: KeyCoords,
    pub mode: KeyReleaseMode,
    pub group: KeyGroup,
    pub time: Millis,
}

impl View for Press {
    type V = PressView;

    open spec fn view(&self) -> PressView {
        PressView {
            layer: self.layer,
            coords: self.coords,
            mode: self.mode,
            group: self.group@,
            time: self.time,
        }
    }
}

/// The mutable part of a layer switcher.
struct Runtime {
    layer_stack: Vec<LayerStackEntry>,
    presses: Vec<Press>,
    /// Queue of key events to issue to the host, oldest first
    emitted_codes: Vec<(Keycode, bool)>,
    /// The key each queued event was emitted for
    origins: Ghost<Seq<KeyCoords>>,
}

impl View for Runtime {
    type V = SwitcherView;

    closed spec fn view(&self) -> SwitcherView {
        SwitcherView {
            stack: self.layer_stack@,
            presses: self.presses@.map_values(|p: Press| p@),
            emitted: self.emitted_codes@,
            origins: self.origins@,
        }
    }
}

impl Runtime {
    proof fn lemma_view(&self)
        ensures
            self@.stack == self.layer_stack@,
            self@.presses.len() == self.presses@.len(),
            forall|i: int| 0 <= i < self.presses@.len() ==> #[trigger] self@.presses[i] == self.presses@[i]@,
            self@.emitted == self.emitted_codes@,
    {
    }

    fn emit_keys(&mut self, keys: &Vec<Keycode>, pressed: bool, coords: KeyCoords)
        ensures
            final(self)@ == emit(old(self)@, key_events(keys@, pressed), coords),
            final(self).layer_stack@ == old(self).layer_stack@,
    {
        let ghost s0 = self@;
        let mut i: usize = 0;
        while i < keys.len()
            invariant
                i <= keys.len(),
                self@ == emit(s0, key_events(keys@.take(i as int), pressed), coords),
                self.layer_stack@ == s0.stack,
            decreases keys.len() - i,
        {
            self.emitted_codes.push((keys[i], pressed));
            self.origins = Ghost(self.origins@.push(coords));
            proof {
                assert(key_events(keys@.take(i as int + 1), pressed) =~= key_events(
                    keys@.take(i as int),
                    pressed,
                ).push((keys@[i as int], pressed)));
            }
            i += 1;
            assert(self.emitted_codes@ =~= s0.emitted + key_events(keys@.take(i as int), pressed));
            assert(self.origins@ =~= s0.origins + Seq::new(i as nat, |j: int| coords));
        }
        assert(keys@.take(keys.len() as int) =~= keys@);
    }

    fn emit_keys_rev(&mut self, keys: &Vec<Keycode>, pressed: bool, coords: KeyCoords)
        ensures
            final(self)@ == emit(old(self)@, key_events(rev_keys(keys@), pressed), coords),
            final(self).layer_stack@ == old(self).layer_stack@,
    {
        let ghost s0 = self@;
        let mut i: usize = keys.len();
        while i > 0
            invariant
                i <= keys.len(),
                self@ == emit(
                    s0,
                    key_events(rev_keys(keys@).take(keys.len() - i), pressed),
                    coords,
                ),
                self.layer_stack@ == s0.stack,
            decreases i,
        {
            i -= 1;
            self.emitted_codes.push((keys[i], pressed));
            self.origins = Ghost(self.origins@.push(coords));
            proof {
                let n = keys.len() - i;
                assert(key_events(rev_keys(keys@).take(n), pressed) =~= key_events(
                    rev_keys(keys@).take(n - 1),
                    pressed,
                ).push((keys@[i as int], pressed)));
            }
            assert(self.emitted_codes@ =~= s0.emitted + key_events(
                rev_keys(keys@).take(keys.len() - i),
                pressed,
            ));
            assert(self.origins@ =~= s0.origins + Seq::new((keys.len() - i) as nat, |j: int| coords));
        }
        assert(rev_keys(keys@).take(keys.len() as int) =~= rev_keys(keys@));
    }

    fn emit_clicks(&mut self, keys: &Vec<Keycode>, coords: KeyCoords)
        ensures
            final(self)@ == emit(old(self)@, click_events(keys@), coords),
            final(self).layer_stack@ == old(self).layer_stack@,
    {
        let ghost s0 = self@;
        let mut i: usize = 0;
        while i < keys.len()
            invariant
                i <= keys.len(),
                self@ == emit(s0, click_events(keys@.take(i as int)), coords),
                self.layer_stack@ == s0.stack,
            decreases keys.len() - i,
        {
            self.emitted_codes.push((keys[i], true));
            self.emitted_codes.push((keys[i], false));
            self.origins = Ghost(self.origins@.push(coords).push(coords));
            proof {
                let t = keys@.take(i as int + 1);
                assert(t.drop_last() =~= keys@.take(i as int));
                assert(t.last() == keys@[i as int]);
            }
            i += 1;
            assert(self.emitted_codes@ =~= s0.emitted + click_events(keys@.take(i as int)));
            assert(self.origins@ =~= s0.origins + Seq::new(click_events(keys@.take(i as int)).len(), |j: int| coords));
        }
        assert(keys@.take(keys.len() as int) =~= keys@);
    }

    fn set_status(&mut self, idx: LayerId, st: LayerStatus)
        requires
            idx < old(self).layer_stack.len(),
        ensures
            final(self)@ == set_status(old(self)@, idx, st),
            final(self).layer_stack.len() == old(self).layer_stack.len(),
    {
        let active_keys = self.layer_stack[idx].active_keys;
        self.layer_stack.set(idx, LayerStackEntry { status: st, active_keys });
    }

    fn set_active_keys(&mut self, idx: LayerId, held: bool)
        requires
            idx < old(self).layer_stack.len(),
        ensures
            final(self)@ == set_active_keys(old(self)@, idx, held),
            final(self).layer_stack.len() == old(self).layer_stack.len(),
    {
        let status = self.layer_stack[idx].status;
        self.layer_stack.set(idx, LayerStackEntry { status, active_keys: held });
    }

    fn push_press(&mut self, p: Press)
        ensures
            final(self)@ == push_press(old(self)@, p@),
            final(self).layer_stack@ == old(self).layer_stack@,
    {
        let ghost v = p@;
        self.presses.push(p);
        assert(self.presses@.map_values(|p: Press| p@) =~= old(self)@.presses.push(v));
    }

    fn remove_press(&mut self, i: usize) -> (r: Press)
        requires
            i < old(self).presses.len(),
        ensures
            final(self)@ == remove_press(old(self)@, i as int),
            r@ == old(self)@.presses[i as int],
            final(self).layer_stack@ == old(self).layer_stack@,
    {
        let r = self.presses.remove(i);
        assert(self.presses@.map_values(|p: Press| p@) =~= old(self)@.presses.remove(i as int));
        r
    }

    fn find_press(&self, coords: KeyCoords) -> (r: Option<usize>)
        ensures
            match find_press(self@.presses, coords) {
                None => r.is_none(),
                Some(i) => r == Some(i as usize) && 0 <= i < self.presses.len(),
            },
    {
        proof {
            self.lemma_view();
        }
        let mut i: usize = 0;
        while i < self.presses.len()
            invariant
                i <= self.presses.len(),
                self@.presses.len() == self.presses.len(),
                find_press_from(self@.presses, coords, i as int) == find_press(
                    self@.presses,
                    coords,
                ),
            decreases self.presses.len() - i,
        {
            if self.presses[i].coords == coords {
                return Some(i);
            }
            i += 1;
        }
        None
    }

    fn on_layer_activation(&mut self, layers: &Vec<Layer>, idx: LayerId)
        requires
            idx < layers.len(),
            idx < old(self).layer_stack.len(),
        ensures
            final(self)@ == on_activation(layers@, old(self)@, idx),
            final(self).layer_stack.len() == old(self).layer_stack.len(),
    {
        self.emit_keys(&layers[idx].on_active_keys, true, layer_key());
        self.set_active_keys(idx, true);
    }

    fn on_layer_deactivation(&mut self, layers: &Vec<Layer>, idx: LayerId)
        requires
            idx < layers.len(),
            idx < old(self).layer_stack.len(),
        ensures
            final(self)@ == on_deactivation(layers@, old(self)@, idx),
            final(self).layer_stack.len() == old(self).layer_stack.len(),
    {
        if !self.layer_stack[idx].active_keys {
            return ;
        }
        self.emit_keys(&layers[idx].on_active_keys, false, layer_key());
        self.set_active_keys(idx, false);
    }

    /// Set layer to passthrough and drop its rules
    fn layer_deactivate(&mut self, layers: &Vec<Layer>, idx: LayerId)
        requires
            old(self).layer_stack.len() == layers.len(),
        ensures
            base_active(old(self)@) ==> base_active(final(self)@),
            tagged(old(self)@) ==> tagged(final(self)@),
            final(self)@.presses == old(self)@.presses,
            final(self)@ == deactivate(layers@, old(self)@, idx),
            final(self).layer_stack.len() == old(self).layer_stack.len(),
    {
        // The lowest layer is always active
        if idx == 0 || idx >= self.layer_stack.len() {
            return ;
        }
        let status = self.layer_stack[idx].status;
        if status == LayerStatus::LayerDisabled || status == LayerStatus::LayerPassthrough {
            return ;
        }
        self.set_status(idx, LayerStatus::LayerPassthrough);
        self.on_layer_deactivation(layers, idx);
    }

    /// Disable layer for good. No activation will enable it
    /// until is gets enabled explicitly.
    fn layer_disable(&mut self, layers: &Vec<Layer>, idx: LayerId)
        requires
            old(self).layer_stack.len() == layers.len(),
        ensures
            base_active(old(self)@) ==> base_active(final(self)@),
            tagged(old(self)@) ==> tagged(final(self)@),
            final(self)@.presses == old(self)@.presses,
            final(self)@ == disable(layers@, old(self)@, idx),
            final(self).layer_stack.len() == old(self).layer_stack.len(),
    {
        if idx == 0 || idx >= self.layer_stack.len() {
            return ;
        }
        if self.layer_stack[idx].status == LayerStatus::LayerDisabled {
            return ;
        }
        self.layer_deactivate(layers, idx);
        self.set_status(idx, LayerStatus::LayerDisabled);
    }

    /// Activate layer, keypress rules will be processed
    fn layer_activate(&mut self, layers: &Vec<Layer>, idx: LayerId)
        requires
            old(self).layer_stack.len() == layers.len(),
        ensures
            base_active(old(self)@) ==> base_active(final(self)@),
            tagged(old(self)@) ==> tagged(final(self)@),
            final(self)@.presses == old(self)@.presses,
            final(self)@ == activate(layers@, old(self)@, idx),
            final(self).layer_stack.len() == old(self).layer_stack.len(),
    {
        if idx >= self.layer_stack.len() {
            return ;
        }
        let status = self.layer_stack[idx].status;
        if status == LayerStatus::LayerDisabled || status == LayerStatus::LayerActive {
            return ;
        }
        self.set_status(idx, LayerStatus::LayerActive);
        if status == LayerStatus::LayerPassthrough {
            self.on_layer_activation(layers, idx);
        }
    }

    /// Activate a passthrough layer in status `st`
    fn layer_activate_as(&mut self, layers: &Vec<Layer>, idx: LayerId, st: LayerStatus)
        requires
            old(self).layer_stack.len() == layers.len(),
        ensures
            base_active(old(self)@) ==> base_active(final(self)@),
            tagged(old(self)@) ==> tagged(final(self)@),
            final(self)@.presses == old(self)@.presses,
            final(self)@ == activate_as(layers@, old(self)@, idx, st),
            final(self).layer_stack.len() == old(self).layer_stack.len(),
    {
        if idx >= self.layer_stack.len() {
            return ;
        }
        if self.layer_stack[idx].status != LayerStatus::LayerPassthrough {
            return ;
        }
        self.set_status(idx, st);
        self.on_layer_activation(layers, idx);
    }

    /// Activate layer `idx` after all other layers were deactivated (except base layer)
    fn layer_move(&mut self, layers: &Vec<Layer>, idx: LayerId)
        requires
            old(self).layer_stack.len() == layers.len(),
        ensures
            base_active(old(self)@) ==> base_active(final(self)@),
            tagged(old(self)@) ==> tagged(final(self)@),
            final(self)@.presses == old(self)@.presses,
            final(self)@ == move_to(layers@, old(self)@, idx),
            final(self).layer_stack.len() == old(self).layer_stack.len(),
    {
        if idx >= self.layer_stack.len() {
            return ;
        }
        if self.layer_stack[idx].status == LayerStatus::LayerDisabled {
            return ;
        }
        let ghost s0 = self@;
        let mut l: usize = 1;
        while l < self.layer_stack.len()
            invariant
                1 <= l,
                self.layer_stack.len() == layers.len(),
                base_active(s0) ==> base_active(self@),
                tagged(s0) ==> tagged(self@),
                self@.presses == s0.presses,
                deactivate_others(layers@, self@, idx, l as int) == deactivate_others(
                    layers@,
                    s0,
                    idx,
                    1,
                ),
            decreases layers.len() - l,
        {
            if l != idx {
                self.layer_deactivate(layers, l);
            }
            l += 1;
        }
        self.layer_activate(layers, idx);
    }

    fn before_key_press(&mut self, layers: &Vec<Layer>, l: LayerId)
        requires
            old(self).layer_stack.len() == layers.len(),
        ensures
            base_active(old(self)@) ==> base_active(final(self)@),
            tagged(old(self)@) ==> tagged(final(self)@),
            final(self)@.presses == old(self)@.presses,
            final(self)@ == before_key_press(layers@, old(self)@, l),
            final(self).layer_stack.len() == old(self).layer_stack.len(),
    {
        if l < layers.len() && layers[l].disable_active_on_press && self.layer_stack[l].active_keys {
            self.emit_keys_rev(&layers[l].on_active_keys, false, layer_key());
            self.set_active_keys(l, false);
        }
    }

    fn after_key_release(&mut self, layers: &Vec<Layer>, l: LayerId)
        requires
            old(self).layer_stack.len() == layers.len(),
        ensures
            base_active(old(self)@) ==> base_active(final(self)@),
            tagged(old(self)@) ==> tagged(final(self)@),
            final(self)@.presses == old(self)@.presses,
            final(self)@ == after_key_release(layers@, old(self)@, l),
            final(self).layer_stack.len() == old(self).layer_stack.len(),
    {
        if l >= layers.len() {
            return ;
        }
        let status = self.layer_stack[l].status;
        // Layer not enabled
        if status == LayerStatus::LayerDisabled || status == LayerStatus::LayerPassthrough {
            return ;
        }
        // Active keys are always active, or are held already
        if !layers[l].disable_active_on_press || self.layer_stack[l].active_keys {
            return ;
        }
        self.emit_keys(&layers[l].on_active_keys, true, layer_key());
        self.set_active_keys(l, true);
    }

    proof fn lemma_emit_emit(
        s: SwitcherView,
        a: Seq<(Keycode, bool)>,
        b: Seq<(Keycode, bool)>,
        c: KeyCoords,
    )
        ensures
            emit(emit(s, a, c), b, c) == emit(s, a + b, c),
    {
        assert(s.emitted + a + b =~= s.emitted + (a + b));
        assert(s.origins + Seq::new(a.len(), |i: int| c) + Seq::new(b.len(), |i: int| c)
            =~= s.origins + Seq::new((a + b).len(), |i: int| c));
    }

    fn keygroup_press(
        &mut self,
        layers: &Vec<Layer>,
        kg: &KeyGroup,
        coords: KeyCoords,
        src: LayerId,
        t: Millis,
        force_click: bool,
    )
        requires
            old(self).layer_stack.len() == layers.len(),
        ensures
            presses_unique(old(self)@.presses) && (force_click || kg.sequential || find_press(
                old(self)@.presses,
                coords,
            ).is_none()) ==> presses_unique(final(self)@.presses),
            base_active(old(self)@) ==> base_active(final(self)@),
            tagged(old(self)@) ==> tagged(final(self)@),
            force_click || kg.sequential ==> final(self)@.presses == old(self)@.presses,
            !force_click && !kg.sequential ==> final(self)@.presses == old(self)@.presses.push(
                PressView { layer: src, coords, mode: KeyReleaseMode::Reverse, group: kg@, time: t },
            ),
            final(self)@ == keygroup_press(layers@, old(self)@, kg@, coords, src, t, force_click),
            final(self).layer_stack.len() == old(self).layer_stack.len(),
    {
        self.before_key_press(layers, src);
        self.emit_keys(&kg.mask, false, coords);
        let ghost s1 = self@;
        if kg.sequential {
            self.emit_clicks(&kg.keys, coords);
            self.emit_keys_rev(&kg.mask, true, coords);
            proof {
                Self::lemma_emit_emit(s1, click_events(kg.keys@), key_events(rev_keys(kg.mask@), true), coords);
            }
            self.after_key_release(layers, src);
        } else if force_click {
            self.emit_keys(&kg.keys, true, coords);
            self.emit_keys_rev(&kg.keys, false, coords);
            self.emit_keys_rev(&kg.mask, true, coords);
            proof {
                let a = key_events(kg.keys@, true);
                let b = key_events(rev_keys(kg.keys@), false);
                let c = key_events(rev_keys(kg.mask@), true);
                Self::lemma_emit_emit(s1, a, b, coords);
                Self::lemma_emit_emit(s1, a + b, c, coords);
            }
            self.after_key_release(layers, src);
        } else {
            self.emit_keys(&kg.keys, true, coords);
            proof {
                if presses_unique(self@.presses) && find_press(self@.presses, coords).is_none() {
                    lemma_push_unique(
                        self@.presses,
                        PressView { layer: src, coords, mode: KeyReleaseMode::Reverse, group: kg@, time: t },
                    );
                }
            }
            self.push_press(
                Press {
                    layer: src,
                    coords,
                    mode: KeyReleaseMode::Reverse,
                    group: kg.clone(),
                    time: t,
                },
            );
        }
    }

    fn keygroup_release(&mut self, layers: &Vec<Layer>, kg: &KeyGroup, coords: KeyCoords, src: LayerId)
        requires
            old(self).layer_stack.len() == layers.len(),
        ensures
            base_active(old(self)@) ==> base_active(final(self)@),
            tagged(old(self)@) ==> tagged(final(self)@),
            final(self)@.presses == old(self)@.presses,
            final(self)@ == keygroup_release(layers@, old(self)@, kg@, coords, src),
            final(self).layer_stack.len() == old(self).layer_stack.len(),
    {
        if kg.sequential {
            // a sequential group was released when it fired
            return ;
        }
        let ghost s0 = self@;
        self.emit_keys_rev(&kg.keys, false, coords);
        self.emit_keys_rev(&kg.mask, true, coords);
        proof {
            Self::lemma_emit_emit(
                s0,
                key_events(rev_keys(kg.keys@), false),
                key_events(rev_keys(kg.mask@), true),
                coords,
            );
        }
        self.after_key_release(layers, src);
    }

    fn record_force_click(&mut self, kg: &KeyGroup, coords: KeyCoords, src: LayerId, t: Millis)
        ensures
            presses_unique(old(self)@.presses) && find_press(old(self)@.presses, coords).is_none()
                ==> presses_unique(final(self)@.presses),
            final(self)@ == push_press(
                old(self)@,
                PressView { layer: src, coords, mode: KeyReleaseMode::ForceClick, group: kg@, time: t },
            ),
            final(self).layer_stack@ == old(self).layer_stack@,
    {
        proof {
            if presses_unique(self@.presses) && find_press(self@.presses, coords).is_none() {
                lemma_push_unique(
                    self@.presses,
                    PressView { layer: src, coords, mode: KeyReleaseMode::ForceClick, group: kg@, time: t },
                );
            }
        }
        self.push_press(
            Press { layer: src, coords, mode: KeyReleaseMode::ForceClick, group: kg.clone(), time: t },
        );
    }

    fn dispatch_press(
        &mut self,
        layers: &Vec<Layer>,
        a: &KeymapEvent,
        coords: KeyCoords,
        src: LayerId,
        t: Millis,
    )
        requires
            old(self).layer_stack.len() == layers.len(),
        ensures
            base_active(old(self)@) ==> base_active(final(self)@),
            tagged(old(self)@) ==> tagged(final(self)@),
            presses_unique(old(self)@.presses) && find_press(old(self)@.presses, coords).is_none()
                ==> presses_unique(final(self)@.presses),
            final(self)@ == dispatch_press(layers@, old(self)@, *a, coords, src, t),
            final(self).layer_stack.len() == old(self).layer_stack.len(),
    {
        match a {
            KeymapEvent::Kg(kg) => self.keygroup_press(layers, kg, coords, src, t, false),
            KeymapEvent::Klong(kshort, _) => self.record_force_click(kshort, coords, src, t),
            KeymapEvent::Khl(k, _) => self.record_force_click(k, coords, src, t),
            KeymapEvent::Khtl(k, _) => self.record_force_click(k, coords, src, t),
            KeymapEvent::Lmove(idx) => self.layer_move(layers, *idx),
            KeymapEvent::Lhold(idx) => self.layer_activate_as(
                layers,
                *idx,
                LayerStatus::LayerActiveUntilKeyRelease(coords),
            ),
            KeymapEvent::Ltap(idx) => self.layer_activate_as(
                layers,
                *idx,
                LayerStatus::LayerActiveUntilKeyReleaseTap(coords),
            ),
            KeymapEvent::Lactivate(idx) => self.layer_activate(layers, *idx),
            KeymapEvent::Ldeactivate(idx) => self.layer_deactivate(layers, *idx),
            KeymapEvent::Ldisable(idx) => self.layer_disable(layers, *idx),
            KeymapEvent::LhtL(idx, idx2) => self.layer_activate_as(
                layers,
                *idx,
                LayerStatus::LayerHoldAndTapToL(coords, t, *idx2),
            ),
            KeymapEvent::LhtK(idx, _) => self.layer_activate_as(
                layers,
                *idx,
                LayerStatus::LayerHoldAndTapKey(coords, t, src),
            ),
            // Nothing, or an indirection leading nowhere
            _ => {},
        }
    }

    /// A tap layer stays active only until the next key press.
    fn retire_taps(&mut self, layers: &Vec<Layer>)
        requires
            old(self).layer_stack.len() == layers.len(),
        ensures
            base_active(old(self)@) ==> base_active(final(self)@),
            tagged(old(self)@) ==> tagged(final(self)@),
            final(self)@.presses == old(self)@.presses,
            final(self)@ == retire_taps(layers@, old(self)@, 0),
            final(self).layer_stack.len() == old(self).layer_stack.len(),
    {
        let ghost s0 = self@;
        let mut i: usize = 0;
        while i < layers.len()
            invariant
                self.layer_stack.len() == layers.len(),
                retire_taps(layers@, self@, i as int) == retire_taps(layers@, s0, 0),
                base_active(s0) ==> base_active(self@),
                tagged(s0) ==> tagged(self@),
                self@.presses == s0.presses,
            decreases layers.len() - i,
        {
            if self.layer_stack[i].status == LayerStatus::LayerActiveUntilAnyKeyPress {
                self.layer_deactivate(layers, i);
            }
            i += 1;
        }
    }

    fn process_keyevent_press(&mut self, layers: &Vec<Layer>, coords: KeyCoords, t: Millis)
        requires
            old(self).layer_stack.len() == layers.len(),
        ensures
            base_active(old(self)@) ==> base_active(final(self)@),
            tagged(old(self)@) ==> tagged(final(self)@),
            presses_unique(old(self)@.presses) ==> presses_unique(final(self)@.presses),
            final(self)@ == press_step(layers@, old(self)@, coords, t),
            final(self).layer_stack.len() == old(self).layer_stack.len(),
    {
        if self.find_press(coords).is_some() {
            // the key is down already
            return ;
        }
        let (srclayer, ev) = resolve_key_event(layers, &self.layer_stack, coords);
        match ev {
            Some(a) => self.dispatch_press(layers, a, coords, srclayer, t),
            None => {},
        }
        self.retire_taps(layers);
    }

    fn release_layer(&mut self, layers: &Vec<Layer>, coords: KeyCoords, t: Millis, idx: LayerId)
        requires
            old(self).layer_stack.len() == layers.len(),
            idx < layers.len(),
        ensures
            base_active(old(self)@) ==> base_active(final(self)@),
            tagged(old(self)@) ==> tagged(final(self)@),
            final(self)@.presses == old(self)@.presses,
            final(self)@ == release_layer(layers@, old(self)@, coords, t, idx),
            final(self).layer_stack.len() == old(self).layer_stack.len(),
    {
        match self.layer_stack[idx].status {
            LayerStatus::LayerActiveUntilKeyRelease(wait_coords) => {
                if wait_coords == coords {
                    self.layer_deactivate(layers, idx);
                }
            },
            LayerStatus::LayerActiveUntilKeyReleaseTap(wait_coords) => {
                if wait_coords == coords {
                    self.set_status(idx, LayerStatus::LayerActiveUntilAnyKeyPress);
                }
            },
            LayerStatus::LayerHoldAndTapKey(wait_coords, t0, lidx) => {
                if wait_coords == coords {
                    self.layer_deactivate(layers, idx);
                    if elapsed_ms(t, t0) < HOLD_THRESHOLD_MS && lidx < layers.len() {
                        match layers[lidx].get_key_event(wait_coords) {
                            KeymapEvent::LhtK(_, k) => {
                                self.keygroup_press(layers, k, coords, lidx, t, true);
                            },
                            _ => {},
                        }
                    }
                }
            },
            LayerStatus::LayerHoldAndTapToL(wait_coords, t0, next_layer) => {
                if wait_coords == coords {
                    self.layer_deactivate(layers, idx);
                    if elapsed_ms(t, t0) < HOLD_THRESHOLD_MS {
                        // This is the first release already, wait for the next key
                        self.layer_activate_as(
                            layers,
                            next_layer,
                            LayerStatus::LayerActiveUntilAnyKeyPress,
                        );
                    }
                }
            },
            _ => {},
        }
    }

    fn process_keyevent_release(&mut self, layers: &Vec<Layer>, coords: KeyCoords, t: Millis)
        requires
            old(self).layer_stack.len() == layers.len(),
        ensures
            base_active(old(self)@) ==> base_active(final(self)@),
            tagged(old(self)@) ==> tagged(final(self)@),
            presses_unique(old(self)@.presses) ==> presses_unique(final(self)@.presses),
            final(self)@ == release_step(layers@, old(self)@, coords, t),
            final(self).layer_stack.len() == old(self).layer_stack.len(),
    {
        let ghost s0 = self@;
        let mut i: usize = 0;
        while i < layers.len()
            invariant
                self.layer_stack.len() == layers.len(),
                base_active(s0) ==> base_active(self@),
                tagged(s0) ==> tagged(self@),
                self@.presses == s0.presses,
                release_layers(layers@, self@, coords, t, i as int) == release_layers(
                    layers@,
                    s0,
                    coords,
                    t,
                    0,
                ),
            decreases layers.len() - i,
        {
            self.release_layer(layers, coords, t, i);
            i += 1;
        }
        match self.find_press(coords) {
            None => {},
            Some(idx) => {
                let press = self.remove_press(idx);
                if press.mode == KeyReleaseMode::ForceClick {
                    // the short group was deferred: click it now
                    self.keygroup_press(layers, &press.group, coords, press.layer, t, true);
                } else {
                    self.keygroup_release(layers, &press.group, coords, press.layer);
                }
                // Reactivate the active keys when needed
                self.after_key_release(layers, press.layer);
            },
        }
    }

    fn process_keyevent_long_press(&mut self, layers: &Vec<Layer>, coords: KeyCoords, t: Millis)
        requires
            old(self).layer_stack.len() == layers.len(),
        ensures
            base_active(old(self)@) ==> base_active(final(self)@),
            tagged(old(self)@) ==> tagged(final(self)@),
            presses_unique(old(self)@.presses) ==> presses_unique(final(self)@.presses),
            final(self)@ == long_press_step(layers@, old(self)@, coords, t),
            final(self).layer_stack.len() == old(self).layer_stack.len(),
    {
        proof {
            self.lemma_view();
        }
        let idx = match self.find_press(coords) {
            None => { return ; },
            Some(idx) => idx,
        };
        proof {
            lemma_find_press_from(self@.presses, coords, 0);
            if presses_unique(self@.presses) {
                lemma_remove_unique(self@.presses, coords, idx as int);
            }
        }
        let layer = self.presses[idx].layer;
        // Still too short, wait for another one
        if elapsed_ms(t, self.presses[idx].time) <= HOLD_THRESHOLD_MS || layer >= layers.len() {
            return ;
        }
        match layers[layer].get_key_event(coords) {
            KeymapEvent::Klong(_, klong) => {
                // The first long press replaces the deferred click by the long
                // group; later ones find a Reverse record and change nothing.
                if self.presses[idx].mode == KeyReleaseMode::ForceClick {
                    self.remove_press(idx);
                    self.keygroup_press(layers, klong, coords, layer, t, false);
                }
            },
            KeymapEvent::Khtl(_, l) => {
                if self.presses[idx].mode == KeyReleaseMode::ForceClick {
                    self.remove_press(idx);
                    self.layer_activate_as(layers, *l, LayerStatus::LayerActiveUntilAnyKeyPress);
                }
            },
            KeymapEvent::Khl(_, l) => {
                if self.presses[idx].mode == KeyReleaseMode::ForceClick {
                    self.remove_press(idx);
                    self.layer_activate(layers, *l);
                }
            },
            _ => {},
        }
    }
}

/// The layered keymap engine: resolves key events against a stack of layers
/// and queues the key events to send to the host.
pub struct LayerSwitcher {
    /// Static configuration of layers
    layers: Vec<Layer>,
    /// Runtime status
    rt: Runtime,
}

impl View for LayerSwitcher {
    type V = SwitcherView;

    closed spec fn view(&self) -> SwitcherView {
        self.rt@
    }
}

impl LayerSwitcher {
    /// The layer configuration.
    pub closed spec fn layers(&self) -> Seq<Layer> {
        self.layers@
    }

    /// The switcher was started and may process key events: one status per
    /// layer, the base layer active, at most one press record per coordinate.
    pub open spec fn started(&self) -> bool {
        switcher_inv(self.layers(), self@)
    }

    /// A switcher over `layers`, not started yet.
    pub fn new(layers: Vec<Layer>) -> (r: Self)
        ensures
            r.layers() == layers@,
            r@ == (SwitcherView { stack: seq![], presses: seq![], emitted: seq![], origins: seq![] }),
    {
        let r = LayerSwitcher {
            layers,
            rt: Runtime {
                layer_stack: Vec::new(),
                presses: Vec::new(),
                emitted_codes: Vec::new(),
                origins: Ghost(Seq::empty()),
            },
        };
        assert(r.rt.presses@.map_values(|p: Press| p@) =~= seq![]);
        r
    }

    /// Initialize (reset) the switcher state.
    /// Must be called before any keys are processed.
    pub fn start(&mut self)
        requires
            old(self).layers().len() > 0,
        ensures
            final(self).layers() == old(self).layers(),
            final(self)@ == start_state(old(self).layers()),
            final(self).started(),
    {
        let mut stack: Vec<LayerStackEntry> = Vec::new();
        let mut i: usize = 0;
        while i < self.layers.len()
            invariant
                i <= self.layers.len(),
                stack.len() == i,
                forall|j: int|
                    0 <= j < i ==> #[trigger] stack@[j] == (LayerStackEntry {
                        status: start_status(self.layers@, j),
                        active_keys: status_is_active(start_status(self.layers@, j)),
                    }),
            decreases self.layers.len() - i,
        {
            let status = if i == 0 {
                LayerStatus::LayerActive
            } else {
                self.layers[i].status_on_reset
            };
            stack.push(
                LayerStackEntry {
                    status,
                    active_keys: status != LayerStatus::LayerDisabled && status
                        != LayerStatus::LayerPassthrough,
                },
            );
            i += 1;
        }
        self.rt = Runtime {
            layer_stack: stack,
            presses: Vec::new(),
            emitted_codes: Vec::new(),
            origins: Ghost(Seq::empty()),
        };
        let ghost ls = self.layers@;
        let ghost st = start_state(ls);
        assert(self.rt.presses@.map_values(|p: Press| p@) =~= seq![]);
        assert(self.rt.layer_stack@ =~= st.stack);
        assert(self.rt@.emitted =~= start_presses(self.layers@, 0));
        assert(self.rt@.origins =~= Seq::new(0, |j: int| spec_layer_key()));
        // Layers that start active hold their active keys down
        let mut i: usize = 0;
        while i < self.layers.len()
            invariant
                i <= self.layers.len(),
                self.layers@ == ls,
                ls == old(self).layers@,
                st == start_state(ls),
                self.rt.layer_stack.len() == self.layers.len(),
                self.rt@ == (SwitcherView {
                    emitted: start_presses(self.layers@, i as nat),
                    origins: Seq::new(
                        start_presses(self.layers@, i as nat).len(),
                        |j: int| spec_layer_key(),
                    ),
                    ..st
                }),
            decreases self.layers.len() - i,
        {
            let status = self.rt.layer_stack[i].status;
            assert(self.rt@.stack[i as int] == st.stack[i as int]);
            assert(status == start_status(self.layers@, i as int));
            let ghost before = self.rt@;
            if status != LayerStatus::LayerDisabled && status != LayerStatus::LayerPassthrough {
                self.rt.emit_keys(&self.layers[i].on_active_keys, true, layer_key());
            } else {
                assert(before.emitted + Seq::<(Keycode, bool)>::empty() =~= before.emitted);
            }
            i += 1;
            assert(self.rt@.emitted =~= start_presses(self.layers@, i as nat));
            assert(self.rt@.origins =~= Seq::new(
                start_presses(self.layers@, i as nat).len(),
                |j: int| spec_layer_key(),
            ));
        }
        assert(self.rt@ == st);
    }

    /// The input entry point: every key event is processed here.
    pub fn process_keyevent(&mut self, ev: KeyStateChange<KeyCoords>, t: Millis)
        requires
            old(self).started(),
        ensures
            final(self).layers() == old(self).layers(),
            final(self)@ == event_step(old(self).layers(), old(self)@, ev, t),
            final(self).started(),
    {
        match ev {
            KeyStateChange::Pressed(k) => self.rt.process_keyevent_press(&self.layers, k, t),
            KeyStateChange::Released(k) => self.rt.process_keyevent_release(&self.layers, k, t),
            KeyStateChange::Click(k) => {
                self.rt.process_keyevent_press(&self.layers, k, t);
                self.rt.process_keyevent_release(&self.layers, k, t);
            },
            KeyStateChange::LongPress(k) => self.rt.process_keyevent_long_press(
                &self.layers,
                k,
                t,
            ),
        }
    }

    /// Hand out the queued key events, oldest first, and empty the queue.
    pub fn take_emitted(&mut self) -> (r: Vec<(Keycode, bool)>)
        ensures
            r@ == old(self)@.emitted,
            final(self)@ == (SwitcherView { emitted: seq![], origins: seq![], ..old(self)@ }),
            final(self).layers() == old(self).layers(),
    {
        let mut codes: Vec<(Keycode, bool)> = Vec::new();
        std::mem::swap(&mut codes, &mut self.rt.emitted_codes);
        self.rt.origins = Ghost(Seq::empty());
        assert(self.rt@.emitted =~= seq![]);
        assert(self.rt@.origins =~= seq![]);
        codes
    }

    /// Consume all queued key events, oldest first, via `renderer`: it is
    /// called once for each queued event.
    pub fn render<F: Fn(Keycode, bool)>(&mut self, renderer: F)
        requires
            forall|k: Keycode, down: bool| renderer.requires((k, down)),
        ensures
            final(self)@ == (SwitcherView { emitted: seq![], origins: seq![], ..old(self)@ }),
            final(self).layers() == old(self).layers(),
            forall|i: int|
                0 <= i < old(self)@.emitted.len() ==> renderer.ensures(
                    (old(self)@.emitted[i].0, old(self)@.emitted[i].1),
                    (),
                ),
    {
        let codes = self.take_emitted();
        let mut i: usize = 0;
        while i < codes.len()
            invariant
                i <= codes.len(),
                forall|k: Keycode, down: bool| renderer.requires((k, down)),
                forall|j: int| 0 <= j < i ==> renderer.ensures((codes@[j].0, codes@[j].1), ()),
            decreases codes.len() - i,
        {
            renderer(codes[i].0, codes[i].1);
            i += 1;
        }
    }

    /// The number of recorded presses reported by `layer`.
    pub fn active_keys_from_layer(&self, layer: LayerId) -> (r: usize)
        ensures
            r == self@.presses.filter(|p: PressView| p.layer == layer).len(),
    {
        proof {
            self.rt.lemma_view();
        }
        let ghost ps = self@.presses;
        let mut count: usize = 0;
        let mut i: usize = 0;
        while i < self.rt.presses.len()
            invariant
                i <= self.rt.presses.len(),
                ps.len() == self.rt.presses.len(),
                ps == self@.presses,
                forall|j: int| 0 <= j < ps.len() ==> #[trigger] ps[j] == self.rt.presses@[j]@,
                count == ps.take(i as int).filter(|p: PressView| p.layer == layer).len(),
            decreases self.rt.presses.len() - i,
        {
            proof {
                let t = ps.take(i as int + 1);
                assert(t.drop_last() =~= ps.take(i as int));
                reveal(Seq::filter);
            }
            if self.rt.presses[i].layer == layer {
                count += 1;
            }
            i += 1;
        }
        assert(ps.take(i as int) =~= ps);
        count
    }

    /// The indices of the layers that take part in key resolution, in
    /// ascending order.
    pub fn get_active_layers(&self) -> (r: Vec<LayerId>)
        ensures
            forall|i: int, j: int| 0 <= i < j < r.len() ==> r@[i] < r@[j],
            forall|l: LayerId|
                r@.contains(l) <==> (l < self@.stack.len() && status_is_active(
                    self@.stack[l as int].status,
                )),
    {
        let mut active: Vec<LayerId> = Vec::new();
        let mut i: usize = 0;
        while i < self.rt.layer_stack.len()
            invariant
                i <= self.rt.layer_stack.len(),
                self@.stack == self.rt.layer_stack@,
                forall|a: int, b: int| 0 <= a < b < active.len() ==> active@[a] < active@[b],
                forall|a: int| 0 <= a < active.len() ==> active@[a] < i,
                forall|l: LayerId|
                    active@.contains(l) <==> (l < i && status_is_active(
                        self@.stack[l as int].status,
                    )),
            decreases self.rt.layer_stack.len() - i,
        {
            let ghost prev = active@;
            let status = self.rt.layer_stack[i].status;
            if status != LayerStatus::LayerDisabled && status != LayerStatus::LayerPassthrough {
                active.push(i);
            }
            proof {
                assert forall|l: LayerId|
                    active@.contains(l) <==> (l < i + 1 && status_is_active(
                        self@.stack[l as int].status,
                    )) by {
                    if prev.contains(l) {
                        let a = choose|a: int| 0 <= a < prev.len() && prev[a] == l;
                        assert(active@[a] == l);
                    }
                    if active@.contains(l) {
                        let a = choose|a: int| 0 <= a < active.len() && active@[a] == l;
                        if a < prev.len() {
                            assert(prev[a] == l);
                        }
                    }
                    if l == i && status_is_active(self@.stack[l as int].status) {
                        assert(active@[active.len() - 1] == l);
                    }
                }
            }
            i += 1;
        }
        active
    }
}

fn insert_keys(keyset: &mut std::collections::HashSet<Keycode>, keys: &Vec<Keycode>)
    ensures
        final(keyset)@ == old(keyset)@ + keys@.to_set(),
{
    broadcast use vstd::std_specs::hash::group_hash_axioms;

    let ghost s0 = keyset@;
    let mut i: usize = 0;
    while i < keys.len()
        invariant
            i <= keys.len(),
            keyset@ == s0 + keys@.take(i as int).to_set(),
        decreases keys.len() - i,
    {
        keyset.insert(keys[i]);
        proof {
            assert forall|k: Keycode| #[trigger]
                keys@.take(i as int + 1).to_set().contains(k) <==> (keys@.take(
                    i as int,
                ).to_set().contains(k) || k == keys@[i as int]) by {
                if keys@.take(i as int + 1).contains(k) {
                    let a = choose|a: int| 0 <= a < i + 1 && #[trigger] keys@.take(i as int + 1)[a] == k;
                    if a < i {
                        assert(keys@.take(i as int)[a] == k);
                    }
                }
                if keys@.take(i as int).contains(k) {
                    let a = choose|a: int| 0 <= a < i && #[trigger] keys@.take(i as int)[a] == k;
                    assert(keys@.take(i as int + 1)[a] == k);
                }
                if k == keys@[i as int] {
                    assert(keys@.take(i as int + 1)[i as int] == k);
                }
            }
        }
        i += 1;
        assert(keyset@ =~= s0 + keys@.take(i as int).to_set());
    }
    assert(keys@.take(keys.len() as int) =~= keys@);
}

impl LayerSwitcher {
    /// All key codes that the layers could emit. The virtual keyboard
    /// registers these with the host.
    pub fn get_used_keys(&self) -> (r: std::collections::HashSet<Keycode>)
        ensures
            r@ == layers_used_keys(self.layers()),
    {
        broadcast use vstd::std_specs::hash::group_hash_axioms;

        let mut keyset: std::collections::HashSet<Keycode> = std::collections::HashSet::new();
        let ghost ls = self.layers@;
        let mut li: usize = 0;
        while li < self.layers.len()
            invariant
                li <= self.layers.len(),
                ls == self.layers@,
                keyset@ == layers_used_keys(ls.take(li as int)),
            decreases self.layers.len() - li,
        {
            let ghost before = keyset@;
            let keys = self.layers[li].get_used_keys();
            insert_keys(&mut keyset, &keys);
            let default_keys = event_get_used_keys(&self.layers[li].default_action);
            insert_keys(&mut keyset, &default_keys);
            insert_keys(&mut keyset, &self.layers[li].on_active_keys);
            proof {
                let t = ls.take(li as int + 1);
                let l = ls[li as int];
                assert(t[li as int] == l);
                assert forall|k: Keycode|
                    layers_used_keys(t).contains(k) <==> keyset@.contains(k) by {
                    if layers_used_keys(t).contains(k) {
                        let i = choose|i: int| 0 <= i < t.len() && #[trigger] layer_emits(t[i], k);
                        if i < li {
                            assert(ls.take(li as int)[i] == t[i]);
                            assert(layers_used_keys(ls.take(li as int)).contains(k));
                        } else if keymap_used_keys(l.keymap@).contains(k) {
                            assert(keys@.to_set().contains(k));
                        } else if event_used_keys(l.default_action).contains(k) {
                            assert(default_keys@.to_set().contains(k));
                        } else {
                            assert(l.on_active_keys@.to_set().contains(k));
                        }
                    }
                    if keyset@.contains(k) {
                        if before.contains(k) {
                            let i = choose|i: int|
                                0 <= i < li && #[trigger] layer_emits(ls.take(li as int)[i], k);
                            assert(t[i] == ls.take(li as int)[i]);
                            assert(layer_emits(t[i], k));
                        } else {
                            assert(layer_emits(t[li as int], k));
                        }
                    }
                }
            }
            li += 1;
            assert(keyset@ =~= layers_used_keys(ls.take(li as int)));
        }
        assert(ls.take(ls.len() as int) =~= ls);
        keyset
    }
}


/// Whether an executable lookup outcome is the one the model gives.
pub open spec fn same_lookup(r: Option<Option<&KeymapEvent>>, o: Option<Option<KeymapEvent>>) -> bool {
    match (r, o) {
        (None, None) => true,
        (Some(None), Some(None)) => true,
        (Some(Some(x)), Some(Some(y))) => *x == y,
        _ => false,
    }
}

/// Whether an executable action is the one the model gives.
pub open spec fn same_action(r: Option<&KeymapEvent>, o: Option<KeymapEvent>) -> bool {
    match (r, o) {
        (None, None) => true,
        (Some(x), Some(y)) => *x == y,
        _ => false,
    }
}

fn bottom_action<'a>(d: &'a KeymapEvent) -> (r: Option<Option<&'a KeymapEvent>>)
    ensures
        same_lookup(r, bottom(*d)),
{
    match d {
        KeymapEvent::Pass => None,
        KeymapEvent::Inh => Some(None),
        _ => Some(Some(d)),
    }
}

/// Look key `coords` up in layer `idx`, following `Inh` to parent layers at
/// most as many times as there are layers.
fn get_key_event_inheritance<'a>(layers: &'a Vec<Layer>, idx: LayerId, coords: KeyCoords) -> (r:
    Option<Option<&'a KeymapEvent>>)
    ensures
        same_lookup(r, lookup(layers@, idx, coords, layers.len() as nat)),
{
    if idx >= layers.len() {
        return None;
    }
    let mut layer_idx = idx;
    let mut fuel: usize = layers.len();
    loop
        invariant
            layer_idx < layers.len(),
            lookup(layers@, layer_idx, coords, fuel as nat) == lookup(
                layers@,
                idx,
                coords,
                layers.len() as nat,
            ),
        decreases fuel,
    {
        let ev = layers[layer_idx].get_key_event(coords);
        match ev {
            KeymapEvent::Pass => {
                return None;
            },
            KeymapEvent::Inh => {
                match layers[layer_idx].inherit {
                    Some(parent) => {
                        if parent >= layers.len() {
                            return bottom_action(&layers[layer_idx].default_action);
                        }
                        if fuel == 0 {
                            // inheritance cycle
                            return Some(None);
                        }
                        layer_idx = parent;
                        fuel -= 1;
                    },
                    None => {
                        return bottom_action(&layers[layer_idx].default_action);
                    },
                }
            },
            _ => {
                return Some(Some(ev));
            },
        }
    }
}

/// Resolve the action currently mapped to key `coords`, taking into account the
/// status of all layers and inheritance. Returns the reporting layer and the
/// action; `None` when the key is swallowed.
fn resolve_key_event<'a>(
    layers: &'a Vec<Layer>,
    stack: &Vec<LayerStackEntry>,
    coords: KeyCoords,
) -> (r: (LayerId, Option<&'a KeymapEvent>))
    ensures
        r.0 == resolve(layers@, stack@, coords).0,
        same_action(r.1, resolve(layers@, stack@, coords).1),
{
    let mut n: usize = stack.len();
    while n > 0
        invariant
            n <= stack.len(),
            resolve_below(layers@, stack@, coords, n as nat) == resolve(layers@, stack@, coords),
        decreases n,
    {
        let idx = n - 1;
        let status = stack[idx].status;
        if status != LayerStatus::LayerDisabled && status != LayerStatus::LayerPassthrough {
            match get_key_event_inheritance(layers, idx, coords) {
                Some(r) => {
                    return (idx, r);
                },
                None => {},
            }
        }
        n = idx;
    }
    (0, None)
}

} // verus!
