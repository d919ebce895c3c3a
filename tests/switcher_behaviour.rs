use evdev::Key;
use xppen_ack05::kbd_events::KeyStateChange;
use xppen_ack05::layout::keys::{KeyGroup, G, S};
use xppen_ack05::layout::layer::Layer;
use xppen_ack05::layout::switcher::LayerSwitcher;
use xppen_ack05::layout::types::KeymapEvent::{
    Inh, Khl, Khtl, Klong, Lactivate, Ldeactivate, Ldisable, LhtL, Lhold, Lmove, No, Pass,
};
use xppen_ack05::layout::types::{KeyCoords, KeymapEvent, Keycode, LayerStatus};

const B01: KeyCoords = KeyCoords(0, 0, 0);
const B02: KeyCoords = KeyCoords(0, 0, 1);
const B03: KeyCoords = KeyCoords(0, 1, 0);
const B04: KeyCoords = KeyCoords(0, 1, 1);
const T0: u64 = 5_000;

fn c(k: Key) -> Keycode {
    k.code()
}

fn kg(keys: &[Key]) -> KeyGroup {
    let mut g = G();
    for k in keys {
        g = g.k(k.code());
    }
    g
}

fn key(k: Key) -> KeymapEvent {
    kg(&[k]).p()
}

fn layer(status: LayerStatus, keymap: Vec<Vec<Vec<KeymapEvent>>>) -> Layer {
    Layer {
        status_on_reset: status,
        inherit: None,
        on_active_keys: vec![],
        disable_active_on_press: false,
        on_timeout_layer: None,
        timeout: None,
        keymap,
        default_action: Pass,
    }
}

fn grid(b01: KeymapEvent, b02: KeymapEvent, b03: KeymapEvent, b04: KeymapEvent) -> Vec<Vec<Vec<KeymapEvent>>> {
    vec![vec![vec![b01, b02], vec![b03, b04]]]
}

fn emitted(layout: &mut LayerSwitcher) -> Vec<(Keycode, bool)> {
    let out = std::cell::RefCell::new(Vec::new());
    layout.render(|k, v| out.borrow_mut().push((k, v)));
    out.into_inner()
}

fn started(layers: Vec<Layer>) -> LayerSwitcher {
    let mut s = LayerSwitcher::new(layers);
    s.start();
    s
}

fn klong_layout() -> LayerSwitcher {
    let long = kg(&[Key::KEY_LEFTCTRL, Key::KEY_LEFTSHIFT, Key::KEY_A]);
    started(vec![layer(
        LayerStatus::LayerActive,
        grid(Klong(kg(&[Key::KEY_F12]), long), No, No, No),
    )])
}

#[test]
fn klong_promotion_on_long_press() {
    let mut l = klong_layout();
    l.process_keyevent(KeyStateChange::Pressed(B01), T0);
    assert_eq!(emitted(&mut l), vec![]);
    l.process_keyevent(KeyStateChange::LongPress(B01), T0 + 201);
    assert_eq!(
        emitted(&mut l),
        vec![(c(Key::KEY_LEFTCTRL), true), (c(Key::KEY_LEFTSHIFT), true), (c(Key::KEY_A), true)]
    );
    // a second long press tick changes nothing
    l.process_keyevent(KeyStateChange::LongPress(B01), T0 + 260);
    assert_eq!(emitted(&mut l), vec![]);
    l.process_keyevent(KeyStateChange::Released(B01), T0 + 300);
    assert_eq!(
        emitted(&mut l),
        vec![(c(Key::KEY_A), false), (c(Key::KEY_LEFTSHIFT), false), (c(Key::KEY_LEFTCTRL), false)]
    );
}

#[test]
fn klong_short_release_clicks_short_group() {
    let mut l = klong_layout();
    l.process_keyevent(KeyStateChange::Pressed(B01), T0);
    assert_eq!(emitted(&mut l), vec![]);
    l.process_keyevent(KeyStateChange::Released(B01), T0 + 150);
    assert_eq!(emitted(&mut l), vec![(c(Key::KEY_F12), true), (c(Key::KEY_F12), false)]);
}

#[test]
fn long_press_at_exactly_threshold_is_not_long() {
    let mut l = klong_layout();
    l.process_keyevent(KeyStateChange::Pressed(B01), T0);
    l.process_keyevent(KeyStateChange::LongPress(B01), T0 + 200);
    assert_eq!(emitted(&mut l), vec![]);
    l.process_keyevent(KeyStateChange::Released(B01), T0 + 200);
    assert_eq!(emitted(&mut l), vec![(c(Key::KEY_F12), true), (c(Key::KEY_F12), false)]);
}

fn hold_tap_layout() -> LayerSwitcher {
    started(vec![
        layer(LayerStatus::LayerActive, grid(LhtL(1, 2), key(Key::KEY_B), No, No)),
        layer(LayerStatus::LayerPassthrough, grid(No, key(Key::KEY_T), No, key(Key::KEY_E))),
        layer(LayerStatus::LayerPassthrough, grid(No, No, No, key(Key::KEY_2))),
    ])
}

#[test]
fn hold_tap_release_at_exactly_threshold_does_not_tap() {
    let mut l = hold_tap_layout();
    l.process_keyevent(KeyStateChange::Pressed(B01), T0);
    assert_eq!(l.get_active_layers(), vec![0, 1]);
    l.process_keyevent(KeyStateChange::Released(B01), T0 + 200);
    assert_eq!(l.get_active_layers(), vec![0]);
    l.process_keyevent(KeyStateChange::Click(B04), T0 + 210);
    assert_eq!(emitted(&mut l), vec![]);
}

#[test]
fn hold_tap_release_just_below_threshold_taps() {
    let mut l = hold_tap_layout();
    l.process_keyevent(KeyStateChange::Pressed(B01), T0);
    l.process_keyevent(KeyStateChange::Released(B01), T0 + 199);
    assert_eq!(l.get_active_layers(), vec![0, 2]);
    l.process_keyevent(KeyStateChange::Click(B04), T0 + 210);
    assert_eq!(emitted(&mut l), vec![(c(Key::KEY_2), true), (c(Key::KEY_2), false)]);
    assert_eq!(l.get_active_layers(), vec![0]);
}

fn shift_layout() -> Vec<Layer> {
    let shift = Layer {
        on_active_keys: vec![c(Key::KEY_LEFTSHIFT)],
        ..layer(
            LayerStatus::LayerPassthrough,
            grid(No, Pass, key(Key::KEY_X), G().m(c(Key::KEY_LEFTSHIFT)).k(c(Key::KEY_E)).p()),
        )
    };
    vec![layer(LayerStatus::LayerActive, grid(Lhold(1), key(Key::KEY_B), No, No)), shift]
}

#[test]
fn click_is_press_then_release() {
    let sequence = [B01, B02, B04, B03, B04];
    let mut a = started(shift_layout());
    let mut b = started(shift_layout());
    a.process_keyevent(KeyStateChange::Pressed(B01), T0);
    b.process_keyevent(KeyStateChange::Pressed(B01), T0);
    for k in sequence.iter().skip(1) {
        a.process_keyevent(KeyStateChange::Click(*k), T0 + 5);
        b.process_keyevent(KeyStateChange::Pressed(*k), T0 + 5);
        b.process_keyevent(KeyStateChange::Released(*k), T0 + 5);
        assert_eq!(emitted(&mut a), emitted(&mut b));
        assert_eq!(a.get_active_layers(), b.get_active_layers());
    }
}

#[test]
fn press_release_of_chord_mirror_each_other() {
    let mut l = started(shift_layout());
    l.process_keyevent(KeyStateChange::Pressed(B01), T0);
    assert_eq!(emitted(&mut l), vec![(c(Key::KEY_LEFTSHIFT), true)]);
    l.process_keyevent(KeyStateChange::Pressed(B04), T0 + 1);
    let down = emitted(&mut l);
    assert_eq!(down, vec![(c(Key::KEY_LEFTSHIFT), false), (c(Key::KEY_E), true)]);
    l.process_keyevent(KeyStateChange::Released(B04), T0 + 2);
    let up = emitted(&mut l);
    let mirrored: Vec<(Keycode, bool)> = down.iter().rev().map(|(k, v)| (*k, !*v)).collect();
    assert_eq!(up, mirrored);
}

#[test]
fn release_after_layer_moved_away_still_releases() {
    let l1 = layer(LayerStatus::LayerPassthrough, grid(No, key(Key::KEY_E), Lmove(2), No));
    let l2 = layer(LayerStatus::LayerPassthrough, grid(No, key(Key::KEY_Z), No, No));
    let mut l = started(vec![
        layer(LayerStatus::LayerActive, grid(Lmove(1), key(Key::KEY_B), No, No)),
        l1,
        l2,
    ]);
    l.process_keyevent(KeyStateChange::Click(B01), T0);
    assert_eq!(l.get_active_layers(), vec![0, 1]);
    l.process_keyevent(KeyStateChange::Pressed(B02), T0 + 1);
    assert_eq!(emitted(&mut l), vec![(c(Key::KEY_E), true)]);
    l.process_keyevent(KeyStateChange::Click(B03), T0 + 2);
    assert_eq!(l.get_active_layers(), vec![0, 2]);
    assert_eq!(l.active_keys_from_layer(1), 1);
    l.process_keyevent(KeyStateChange::Released(B02), T0 + 3);
    assert_eq!(emitted(&mut l), vec![(c(Key::KEY_E), false)]);
    assert_eq!(l.active_keys_from_layer(1), 0);
}

#[test]
fn inheritance_cycle_swallows_key() {
    let l1 = Layer { inherit: Some(2), ..layer(LayerStatus::LayerActive, grid(Inh, No, No, No)) };
    let l2 = Layer { inherit: Some(1), ..layer(LayerStatus::LayerPassthrough, grid(Inh, No, No, No)) };
    let mut l = started(vec![
        layer(LayerStatus::LayerActive, grid(key(Key::KEY_B), No, No, No)),
        l1,
        l2,
    ]);
    l.process_keyevent(KeyStateChange::Click(B01), T0);
    assert_eq!(emitted(&mut l), vec![]);
}

#[test]
fn inherit_without_parent_uses_default_action() {
    let top = Layer {
        default_action: key(Key::KEY_Q),
        ..layer(LayerStatus::LayerActive, grid(Inh, No, No, No))
    };
    let mut l = started(vec![layer(LayerStatus::LayerActive, grid(key(Key::KEY_B), No, No, No)), top]);
    l.process_keyevent(KeyStateChange::Click(B01), T0);
    assert_eq!(emitted(&mut l), vec![(c(Key::KEY_Q), true), (c(Key::KEY_Q), false)]);
    // a coordinate outside the keymap also gets the default action
    l.process_keyevent(KeyStateChange::Click(KeyCoords(3, 7, 9)), T0);
    assert_eq!(emitted(&mut l), vec![(c(Key::KEY_Q), true), (c(Key::KEY_Q), false)]);
}

#[test]
fn all_layers_passing_swallows_key() {
    let mut l = started(vec![layer(LayerStatus::LayerActive, grid(Pass, No, No, No))]);
    l.process_keyevent(KeyStateChange::Click(B01), T0);
    assert_eq!(emitted(&mut l), vec![]);
}

#[test]
fn sequential_group_clicks_each_key() {
    let seq = S().m(c(Key::KEY_LEFTSHIFT)).k(c(Key::KEY_A)).k(c(Key::KEY_B)).p();
    let mut l = started(vec![layer(LayerStatus::LayerActive, grid(seq, No, No, No))]);
    l.process_keyevent(KeyStateChange::Pressed(B01), T0);
    assert_eq!(
        emitted(&mut l),
        vec![
            (c(Key::KEY_LEFTSHIFT), false),
            (c(Key::KEY_A), true),
            (c(Key::KEY_A), false),
            (c(Key::KEY_B), true),
            (c(Key::KEY_B), false),
            (c(Key::KEY_LEFTSHIFT), true),
        ]
    );
    l.process_keyevent(KeyStateChange::Released(B01), T0 + 1);
    assert_eq!(emitted(&mut l), vec![]);
}

#[test]
fn base_layer_stays_active() {
    let mut l = started(vec![
        layer(LayerStatus::LayerPassthrough, grid(Ldeactivate(0), Ldisable(0), Lmove(0), key(Key::KEY_B))),
    ]);
    assert_eq!(l.get_active_layers(), vec![0]);
    l.process_keyevent(KeyStateChange::Click(B01), T0);
    l.process_keyevent(KeyStateChange::Click(B02), T0);
    l.process_keyevent(KeyStateChange::Click(B03), T0);
    assert_eq!(l.get_active_layers(), vec![0]);
    l.process_keyevent(KeyStateChange::Click(B04), T0);
    assert_eq!(emitted(&mut l), vec![(c(Key::KEY_B), true), (c(Key::KEY_B), false)]);
}

#[test]
fn explicit_layer_transitions() {
    let l1 = Layer {
        on_active_keys: vec![c(Key::KEY_V)],
        ..layer(LayerStatus::LayerPassthrough, grid(Pass, Pass, Pass, Pass))
    };
    let mut l = started(vec![
        layer(LayerStatus::LayerActive, grid(Lactivate(1), Ldeactivate(1), Ldisable(1), Lactivate(7))),
        l1,
    ]);
    l.process_keyevent(KeyStateChange::Click(B01), T0);
    assert_eq!(emitted(&mut l), vec![(c(Key::KEY_V), true)]);
    assert_eq!(l.get_active_layers(), vec![0, 1]);
    // activating an active layer does nothing
    l.process_keyevent(KeyStateChange::Click(B01), T0);
    assert_eq!(emitted(&mut l), vec![]);
    l.process_keyevent(KeyStateChange::Click(B02), T0);
    assert_eq!(emitted(&mut l), vec![(c(Key::KEY_V), false)]);
    assert_eq!(l.get_active_layers(), vec![0]);
    l.process_keyevent(KeyStateChange::Click(B03), T0);
    l.process_keyevent(KeyStateChange::Click(B01), T0);
    // a disabled layer cannot be activated
    assert_eq!(emitted(&mut l), vec![]);
    assert_eq!(l.get_active_layers(), vec![0]);
    // an unknown layer is ignored
    l.process_keyevent(KeyStateChange::Click(B04), T0);
    assert_eq!(l.get_active_layers(), vec![0]);
}

#[test]
fn khl_long_press_activates_layer() {
    let mut l = started(vec![
        layer(LayerStatus::LayerActive, grid(Khl(kg(&[Key::KEY_H]), 1), key(Key::KEY_B), No, No)),
        layer(LayerStatus::LayerPassthrough, grid(No, key(Key::KEY_Y), No, No)),
    ]);
    l.process_keyevent(KeyStateChange::Pressed(B01), T0);
    l.process_keyevent(KeyStateChange::LongPress(B01), T0 + 250);
    assert_eq!(l.get_active_layers(), vec![0, 1]);
    l.process_keyevent(KeyStateChange::Released(B01), T0 + 300);
    assert_eq!(emitted(&mut l), vec![]);
    l.process_keyevent(KeyStateChange::Click(B02), T0 + 310);
    assert_eq!(emitted(&mut l), vec![(c(Key::KEY_Y), true), (c(Key::KEY_Y), false)]);
    assert_eq!(l.get_active_layers(), vec![0, 1]);
}

#[test]
fn khl_short_press_clicks_group() {
    let mut l = started(vec![
        layer(LayerStatus::LayerActive, grid(Khl(kg(&[Key::KEY_H]), 1), No, No, No)),
        layer(LayerStatus::LayerPassthrough, grid(No, No, No, No)),
    ]);
    l.process_keyevent(KeyStateChange::Click(B01), T0);
    assert_eq!(emitted(&mut l), vec![(c(Key::KEY_H), true), (c(Key::KEY_H), false)]);
    assert_eq!(l.get_active_layers(), vec![0]);
}

#[test]
fn khtl_long_press_taps_layer() {
    let mut l = started(vec![
        layer(LayerStatus::LayerActive, grid(Khtl(kg(&[Key::KEY_H]), 1), key(Key::KEY_B), No, No)),
        layer(LayerStatus::LayerPassthrough, grid(No, key(Key::KEY_Y), No, No)),
    ]);
    l.process_keyevent(KeyStateChange::Pressed(B01), T0);
    l.process_keyevent(KeyStateChange::LongPress(B01), T0 + 250);
    l.process_keyevent(KeyStateChange::Released(B01), T0 + 300);
    assert_eq!(l.get_active_layers(), vec![0, 1]);
    l.process_keyevent(KeyStateChange::Click(B02), T0 + 310);
    assert_eq!(emitted(&mut l), vec![(c(Key::KEY_Y), true), (c(Key::KEY_Y), false)]);
    assert_eq!(l.get_active_layers(), vec![0]);
    l.process_keyevent(KeyStateChange::Click(B02), T0 + 320);
    assert_eq!(emitted(&mut l), vec![(c(Key::KEY_B), true), (c(Key::KEY_B), false)]);
}

#[test]
fn repeated_press_of_held_key_is_ignored() {
    let mut l = started(vec![layer(LayerStatus::LayerActive, grid(key(Key::KEY_B), No, No, No))]);
    l.process_keyevent(KeyStateChange::Pressed(B01), T0);
    l.process_keyevent(KeyStateChange::Pressed(B01), T0 + 1);
    assert_eq!(emitted(&mut l), vec![(c(Key::KEY_B), true)]);
    assert_eq!(l.active_keys_from_layer(0), 1);
    l.process_keyevent(KeyStateChange::Released(B01), T0 + 2);
    assert_eq!(emitted(&mut l), vec![(c(Key::KEY_B), false)]);
    l.process_keyevent(KeyStateChange::Released(B01), T0 + 3);
    assert_eq!(emitted(&mut l), vec![]);
}

#[test]
fn every_key_down_is_released_when_quiescent() {
    let mut l = started(shift_layout());
    let events = [
        KeyStateChange::Pressed(B01),
        KeyStateChange::Pressed(B03),
        KeyStateChange::Pressed(B04),
        KeyStateChange::Released(B01),
        KeyStateChange::Click(B02),
        KeyStateChange::Released(B04),
        KeyStateChange::Released(B03),
    ];
    let mut all = Vec::new();
    for ev in events.iter() {
        l.process_keyevent(*ev, T0);
        all.extend(emitted(&mut l));
    }
    let mut held: std::collections::HashMap<Keycode, i32> = std::collections::HashMap::new();
    for (k, down) in all {
        *held.entry(k).or_insert(0) += if down { 1 } else { -1 };
    }
    assert!(held.values().all(|n| *n == 0), "unbalanced: {:?}", held);
    assert_eq!(l.active_keys_from_layer(0) + l.active_keys_from_layer(1), 0);
}

#[test]
fn disable_active_on_press_restores_active_keys() {
    let l1 = Layer {
        on_active_keys: vec![c(Key::KEY_LEFTCTRL), c(Key::KEY_LEFTALT)],
        disable_active_on_press: true,
        ..layer(LayerStatus::LayerPassthrough, grid(No, key(Key::KEY_K), No, No))
    };
    let mut l = started(vec![layer(LayerStatus::LayerActive, grid(Lhold(1), No, No, No)), l1]);
    l.process_keyevent(KeyStateChange::Pressed(B01), T0);
    assert_eq!(emitted(&mut l), vec![(c(Key::KEY_LEFTCTRL), true), (c(Key::KEY_LEFTALT), true)]);
    l.process_keyevent(KeyStateChange::Click(B02), T0 + 1);
    assert_eq!(
        emitted(&mut l),
        vec![
            (c(Key::KEY_LEFTALT), false),
            (c(Key::KEY_LEFTCTRL), false),
            (c(Key::KEY_K), true),
            (c(Key::KEY_K), false),
            (c(Key::KEY_LEFTCTRL), true),
            (c(Key::KEY_LEFTALT), true),
        ]
    );
    l.process_keyevent(KeyStateChange::Released(B01), T0 + 2);
    assert_eq!(emitted(&mut l), vec![(c(Key::KEY_LEFTCTRL), false), (c(Key::KEY_LEFTALT), false)]);
}

#[test]
fn active_layers_are_ascending() {
    let l = started(vec![
        layer(LayerStatus::LayerActive, grid(No, No, No, No)),
        layer(LayerStatus::LayerActive, grid(No, No, No, No)),
        layer(LayerStatus::LayerDisabled, grid(No, No, No, No)),
        layer(LayerStatus::LayerActiveUntilAnyKeyPress, grid(No, No, No, No)),
        layer(LayerStatus::LayerPassthrough, grid(No, No, No, No)),
    ]);
    assert_eq!(l.get_active_layers(), vec![0, 1, 3]);
}

#[test]
fn base_layer_is_active_after_start_whatever_its_reset_status() {
    let l = started(vec![layer(LayerStatus::LayerDisabled, grid(No, No, No, No))]);
    assert_eq!(l.get_active_layers(), vec![0]);
}

#[test]
fn used_keys_cover_keymaps_and_active_keys() {
    let l1 = Layer {
        on_active_keys: vec![c(Key::KEY_V)],
        ..layer(
            LayerStatus::LayerPassthrough,
            grid(Klong(kg(&[Key::KEY_F12]), kg(&[Key::KEY_A])), Khtl(kg(&[Key::KEY_H]), 0), No, Lhold(2)),
        )
    };
    let l = LayerSwitcher::new(vec![
        layer(LayerStatus::LayerActive, grid(key(Key::KEY_B), G().m(c(Key::KEY_LEFTSHIFT)).p(), No, No)),
        l1,
    ]);
    let used = l.get_used_keys();
    let mut expected = std::collections::HashSet::new();
    for k in [Key::KEY_B, Key::KEY_LEFTSHIFT, Key::KEY_F12, Key::KEY_A, Key::KEY_H, Key::KEY_V] {
        expected.insert(k.code());
    }
    assert_eq!(used, expected);
}

#[test]
fn take_emitted_empties_the_queue() {
    let mut l = started(vec![layer(LayerStatus::LayerActive, grid(key(Key::KEY_B), No, No, No))]);
    l.process_keyevent(KeyStateChange::Click(B01), T0);
    assert_eq!(l.take_emitted(), vec![(c(Key::KEY_B), true), (c(Key::KEY_B), false)]);
    assert_eq!(l.take_emitted(), vec![]);
}

#[test]
fn held_chord_keeps_one_key_down_per_key_until_release() {
    let chord = G().m(c(Key::KEY_LEFTSHIFT)).k(c(Key::KEY_LEFTCTRL)).k(c(Key::KEY_C)).p();
    let mut l = started(vec![layer(LayerStatus::LayerActive, grid(chord, key(Key::KEY_B), No, No))]);
    l.process_keyevent(KeyStateChange::Pressed(B01), T0);
    l.process_keyevent(KeyStateChange::Click(B02), T0 + 1);
    let so_far = emitted(&mut l);
    let net = |k: Key| -> i32 {
        so_far.iter().filter(|(kc, _)| *kc == k.code()).map(|(_, d)| if *d { 1 } else { -1 }).sum()
    };
    assert_eq!(net(Key::KEY_LEFTCTRL), 1);
    assert_eq!(net(Key::KEY_C), 1);
    assert_eq!(net(Key::KEY_LEFTSHIFT), -1);
    assert_eq!(net(Key::KEY_B), 0);
    l.process_keyevent(KeyStateChange::Released(B01), T0 + 2);
    assert_eq!(
        emitted(&mut l),
        vec![(c(Key::KEY_C), false), (c(Key::KEY_LEFTCTRL), false), (c(Key::KEY_LEFTSHIFT), true)]
    );
}

#[test]
fn used_keys_include_default_actions() {
    let l0 = Layer { default_action: key(Key::KEY_Q), ..layer(LayerStatus::LayerActive, grid(No, No, No, No)) };
    let l = LayerSwitcher::new(vec![l0]);
    let mut expected = std::collections::HashSet::new();
    expected.insert(c(Key::KEY_Q));
    assert_eq!(l.get_used_keys(), expected);
}

#[test]
fn start_presses_active_keys_of_layers_that_start_active() {
    let l1 = Layer {
        on_active_keys: vec![c(Key::KEY_LEFTCTRL), c(Key::KEY_V)],
        ..layer(LayerStatus::LayerActive, grid(Pass, Pass, Pass, Pass))
    };
    let l2 = Layer {
        on_active_keys: vec![c(Key::KEY_Z)],
        ..layer(LayerStatus::LayerPassthrough, grid(Pass, Pass, Pass, Pass))
    };
    let mut l = started(vec![
        layer(LayerStatus::LayerActive, grid(Ldeactivate(1), No, No, No)),
        l1,
        l2,
    ]);
    assert_eq!(emitted(&mut l), vec![(c(Key::KEY_LEFTCTRL), true), (c(Key::KEY_V), true)]);
    l.process_keyevent(KeyStateChange::Click(B01), T0);
    assert_eq!(emitted(&mut l), vec![(c(Key::KEY_LEFTCTRL), false), (c(Key::KEY_V), false)]);
    // a restart presses them again and drops what was queued
    l.process_keyevent(KeyStateChange::Click(B02), T0);
    l.start();
    assert_eq!(emitted(&mut l), vec![(c(Key::KEY_LEFTCTRL), true), (c(Key::KEY_V), true)]);
}
