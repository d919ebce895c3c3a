use evdev::Key;
use xppen_ack05::kbd_events::KeyStateChange;
use xppen_ack05::layout::keys::{KeyGroup, G};
use xppen_ack05::layout::layer::Layer;
use xppen_ack05::layout::switcher::LayerSwitcher;
use xppen_ack05::layout::types::KeymapEvent::{Inh, LhtK, LhtL, Lhold, Ltap, No, Pass};
use xppen_ack05::layout::types::{KeyCoords, KeymapEvent, Keycode, LayerStatus};

const B01: KeyCoords = KeyCoords(0, 0, 0);
const B02: KeyCoords = KeyCoords(0, 0, 1);
const B03: KeyCoords = KeyCoords(0, 1, 0);
const B04: KeyCoords = KeyCoords(0, 1, 1);

struct TestTime {
    t: u64,
}

impl TestTime {
    fn start() -> Self {
        TestTime { t: 1_000 }
    }

    fn now(&self) -> u64 {
        self.t
    }

    fn advance_ms(&mut self, ms: u64) -> u64 {
        self.t += ms;
        self.t
    }
}

fn code(k: Key) -> Keycode {
    k.code()
}

#[allow(non_snake_case)]
fn K(k: Key) -> KeymapEvent {
    G().k(code(k)).p()
}

#[allow(non_snake_case)]
fn Kms(mask: Vec<Key>, keys: Vec<Key>) -> KeymapEvent {
    let mut g = G();
    for m in mask {
        g = g.m(code(m));
    }
    for k in keys {
        g = g.k(code(k));
    }
    g.p()
}

fn group(keys: Vec<Key>) -> KeyGroup {
    let mut g = G();
    for k in keys {
        g = g.k(code(k));
    }
    g
}

fn default_layer_config(keymap: Vec<Vec<Vec<KeymapEvent>>>) -> Layer {
    Layer {
        status_on_reset: LayerStatus::LayerActive,
        inherit: None,
        on_active_keys: vec![],
        disable_active_on_press: false,
        on_timeout_layer: None,
        timeout: None,
        keymap,
        default_action: Pass,
    }
}

fn passthrough_layer(keymap: Vec<Vec<Vec<KeymapEvent>>>) -> Layer {
    Layer { status_on_reset: LayerStatus::LayerPassthrough, ..default_layer_config(keymap) }
}

fn assert_emitted_keys(layout: &mut LayerSwitcher, keys: Vec<(Key, bool)>) {
    let received = std::cell::RefCell::new(Vec::new());
    layout.render(|k, v| {
        received.borrow_mut().push((k, v));
    });
    let received = received.into_inner();
    let expected: Vec<(Keycode, bool)> = keys.iter().map(|(k, v)| (k.code(), *v)).collect();
    assert_eq!(received, expected);
}

fn basic_layout() -> LayerSwitcher {
    let keymap_default = vec![vec![
        vec![K(Key::KEY_LEFTALT), K(Key::KEY_B)],
        vec![K(Key::KEY_LEFTSHIFT), No],
    ]];
    LayerSwitcher::new(vec![default_layer_config(keymap_default)])
}

#[test]
fn test_basic_layout() {
    let mut layout = basic_layout();
    layout.start();
    let mut t = TestTime::start();

    assert_emitted_keys(&mut layout, vec![]);

    layout.process_keyevent(KeyStateChange::Pressed(B01), t.now());
    assert_emitted_keys(&mut layout, vec![(Key::KEY_LEFTALT, true)]);

    layout.process_keyevent(KeyStateChange::Click(B02), t.now());
    assert_emitted_keys(&mut layout, vec![(Key::KEY_B, true), (Key::KEY_B, false)]);

    layout.process_keyevent(KeyStateChange::Released(B01), t.now());
    assert_emitted_keys(&mut layout, vec![(Key::KEY_LEFTALT, false)]);

    layout.process_keyevent(KeyStateChange::Click(B04), t.advance_ms(10));
    assert_emitted_keys(&mut layout, vec![]);
}

fn basic_layered_layout() -> LayerSwitcher {
    let keymap_default = vec![vec![
        vec![Lhold(1), K(Key::KEY_B)],
        vec![K(Key::KEY_LEFTSHIFT), No],
    ]];
    let keymap_shift = vec![vec![vec![K(Key::KEY_0), Pass], vec![Inh, K(Key::KEY_E)]]];
    let keymap_inh = vec![vec![
        vec![K(Key::KEY_1), K(Key::KEY_9)],
        vec![K(Key::KEY_2), K(Key::KEY_3)],
    ]];
    let shift_layer = Layer {
        inherit: Some(2),
        on_active_keys: vec![code(Key::KEY_LEFTSHIFT)],
        ..passthrough_layer(keymap_shift)
    };
    let inh_layer =
        Layer { status_on_reset: LayerStatus::LayerDisabled, ..default_layer_config(keymap_inh) };
    LayerSwitcher::new(vec![default_layer_config(keymap_default), shift_layer, inh_layer])
}

#[test]
fn test_basic_layered_layout() {
    let mut layout = basic_layered_layout();
    layout.start();
    let mut t = TestTime::start();

    assert_emitted_keys(&mut layout, vec![]);

    layout.process_keyevent(KeyStateChange::Pressed(B01), t.now());
    assert_emitted_keys(&mut layout, vec![(Key::KEY_LEFTSHIFT, true)]);

    layout.process_keyevent(KeyStateChange::Click(B02), t.advance_ms(1));
    assert_emitted_keys(&mut layout, vec![(Key::KEY_B, true), (Key::KEY_B, false)]);

    layout.process_keyevent(KeyStateChange::Click(B04), t.now());
    assert_emitted_keys(&mut layout, vec![(Key::KEY_E, true), (Key::KEY_E, false)]);

    layout.process_keyevent(KeyStateChange::Click(B03), t.now());
    assert_emitted_keys(&mut layout, vec![(Key::KEY_2, true), (Key::KEY_2, false)]);

    layout.process_keyevent(KeyStateChange::Released(B01), t.now());
    assert_emitted_keys(&mut layout, vec![(Key::KEY_LEFTSHIFT, false)]);

    layout.process_keyevent(KeyStateChange::Click(B04), t.now());
    assert_emitted_keys(&mut layout, vec![]);
}

#[test]
fn test_basic_layered_layout_cross_release() {
    let mut layout = basic_layered_layout();
    layout.start();
    let mut t = TestTime::start();

    assert_emitted_keys(&mut layout, vec![]);

    layout.process_keyevent(KeyStateChange::Pressed(B01), t.now());
    assert_emitted_keys(&mut layout, vec![(Key::KEY_LEFTSHIFT, true)]);

    layout.process_keyevent(KeyStateChange::Click(B02), t.advance_ms(1));
    assert_emitted_keys(&mut layout, vec![(Key::KEY_B, true), (Key::KEY_B, false)]);

    layout.process_keyevent(KeyStateChange::Pressed(B04), t.now());
    assert_emitted_keys(&mut layout, vec![(Key::KEY_E, true)]);

    layout.process_keyevent(KeyStateChange::Released(B01), t.now());
    assert_emitted_keys(&mut layout, vec![(Key::KEY_LEFTSHIFT, false)]);

    layout.process_keyevent(KeyStateChange::Released(B04), t.now());
    assert_emitted_keys(&mut layout, vec![(Key::KEY_E, false)]);

    layout.process_keyevent(KeyStateChange::Click(B04), t.now());
    assert_emitted_keys(&mut layout, vec![]);
}

fn tap_layered_layout() -> LayerSwitcher {
    let keymap_default = vec![vec![
        vec![Ltap(1), K(Key::KEY_B)],
        vec![K(Key::KEY_LEFTSHIFT), No],
    ]];
    let keymap_shift = vec![vec![
        vec![No, Inh],
        vec![K(Key::KEY_LEFTSHIFT), K(Key::KEY_E)],
    ]];
    let shift_layer = Layer {
        on_active_keys: vec![code(Key::KEY_LEFTSHIFT)],
        ..passthrough_layer(keymap_shift)
    };
    LayerSwitcher::new(vec![default_layer_config(keymap_default), shift_layer])
}

#[test]
fn test_tap_layered_layout() {
    let mut layout = tap_layered_layout();
    layout.start();
    let mut t = TestTime::start();

    assert_emitted_keys(&mut layout, vec![]);

    layout.process_keyevent(KeyStateChange::Click(B01), t.now());
    assert_emitted_keys(&mut layout, vec![(Key::KEY_LEFTSHIFT, true)]);

    assert_eq!(layout.get_active_layers(), vec![0, 1]);

    layout.process_keyevent(KeyStateChange::Click(B02), t.advance_ms(1));
    assert_emitted_keys(
        &mut layout,
        vec![(Key::KEY_B, true), (Key::KEY_LEFTSHIFT, false), (Key::KEY_B, false)],
    );

    assert_eq!(layout.get_active_layers(), vec![0]);

    layout.process_keyevent(KeyStateChange::Click(B04), t.now());
    assert_emitted_keys(&mut layout, vec![]);

    layout.process_keyevent(KeyStateChange::Click(B04), t.now());
    assert_emitted_keys(&mut layout, vec![]);
}

#[test]
fn test_tap_layered_hold() {
    let mut layout = tap_layered_layout();
    layout.start();
    let mut t = TestTime::start();

    assert_emitted_keys(&mut layout, vec![]);

    layout.process_keyevent(KeyStateChange::Pressed(B01), t.now());
    assert_emitted_keys(&mut layout, vec![(Key::KEY_LEFTSHIFT, true)]);

    assert_eq!(layout.get_active_layers(), vec![0, 1]);

    layout.process_keyevent(KeyStateChange::Click(B02), t.advance_ms(1));
    assert_emitted_keys(&mut layout, vec![(Key::KEY_B, true), (Key::KEY_B, false)]);

    assert_eq!(layout.get_active_layers(), vec![0, 1]);

    layout.process_keyevent(KeyStateChange::Released(B01), t.now());
    assert_emitted_keys(&mut layout, vec![]);

    assert_eq!(layout.get_active_layers(), vec![0, 1]);

    layout.process_keyevent(KeyStateChange::Click(B04), t.now());
    assert_emitted_keys(
        &mut layout,
        vec![(Key::KEY_E, true), (Key::KEY_LEFTSHIFT, false), (Key::KEY_E, false)],
    );

    layout.process_keyevent(KeyStateChange::Click(B04), t.now());
    assert_emitted_keys(&mut layout, vec![]);
}

#[test]
fn test_tap_layered_hold_crossed() {
    let mut layout = tap_layered_layout();
    layout.start();
    let mut t = TestTime::start();

    assert_emitted_keys(&mut layout, vec![]);

    layout.process_keyevent(KeyStateChange::Pressed(B01), t.now());
    assert_emitted_keys(&mut layout, vec![(Key::KEY_LEFTSHIFT, true)]);

    assert_eq!(layout.get_active_layers(), vec![0, 1]);

    layout.process_keyevent(KeyStateChange::Pressed(B02), t.advance_ms(1));
    assert_emitted_keys(&mut layout, vec![(Key::KEY_B, true)]);

    assert_eq!(layout.get_active_layers(), vec![0, 1]);

    layout.process_keyevent(KeyStateChange::Released(B01), t.now());
    assert_emitted_keys(&mut layout, vec![]);

    assert_eq!(layout.get_active_layers(), vec![0, 1]);

    layout.process_keyevent(KeyStateChange::Released(B02), t.now());
    assert_emitted_keys(&mut layout, vec![(Key::KEY_B, false)]);

    assert_eq!(layout.get_active_layers(), vec![0, 1]);

    layout.process_keyevent(KeyStateChange::Pressed(B04), t.now());
    assert_emitted_keys(&mut layout, vec![(Key::KEY_E, true), (Key::KEY_LEFTSHIFT, false)]);

    assert_eq!(layout.get_active_layers(), vec![0]);

    layout.process_keyevent(KeyStateChange::Released(B04), t.now());
    assert_emitted_keys(&mut layout, vec![(Key::KEY_E, false)]);
}

#[test]
fn test_tap_layered_hold_dual_crossed() {
    let mut layout = tap_layered_layout();
    layout.start();
    let mut t = TestTime::start();

    assert_emitted_keys(&mut layout, vec![]);

    layout.process_keyevent(KeyStateChange::Pressed(B01), t.now());
    assert_emitted_keys(&mut layout, vec![(Key::KEY_LEFTSHIFT, true)]);

    assert_eq!(layout.get_active_layers(), vec![0, 1]);

    layout.process_keyevent(KeyStateChange::Pressed(B02), t.advance_ms(1));
    assert_emitted_keys(&mut layout, vec![(Key::KEY_B, true)]);

    assert_eq!(layout.get_active_layers(), vec![0, 1]);

    layout.process_keyevent(KeyStateChange::Released(B01), t.now());
    assert_emitted_keys(&mut layout, vec![]);

    assert_eq!(layout.get_active_layers(), vec![0, 1]);

    layout.process_keyevent(KeyStateChange::Pressed(B04), t.now());
    assert_emitted_keys(&mut layout, vec![(Key::KEY_E, true), (Key::KEY_LEFTSHIFT, false)]);

    assert_eq!(layout.get_active_layers(), vec![0]);

    layout.process_keyevent(KeyStateChange::Released(B02), t.now());
    assert_emitted_keys(&mut layout, vec![(Key::KEY_B, false)]);

    assert_eq!(layout.get_active_layers(), vec![0]);

    layout.process_keyevent(KeyStateChange::Released(B04), t.now());
    assert_emitted_keys(&mut layout, vec![(Key::KEY_E, false)]);
}

#[test]
fn test_tap_layered_hold_dual_crossed_lifo() {
    let mut layout = tap_layered_layout();
    layout.start();
    let mut t = TestTime::start();

    assert_emitted_keys(&mut layout, vec![]);

    layout.process_keyevent(KeyStateChange::Pressed(B01), t.now());
    assert_emitted_keys(&mut layout, vec![(Key::KEY_LEFTSHIFT, true)]);

    assert_eq!(layout.get_active_layers(), vec![0, 1]);

    layout.process_keyevent(KeyStateChange::Pressed(B02), t.advance_ms(1));
    assert_emitted_keys(&mut layout, vec![(Key::KEY_B, true)]);

    assert_eq!(layout.get_active_layers(), vec![0, 1]);

    layout.process_keyevent(KeyStateChange::Released(B01), t.now());
    assert_emitted_keys(&mut layout, vec![]);

    assert_eq!(layout.get_active_layers(), vec![0, 1]);

    layout.process_keyevent(KeyStateChange::Pressed(B04), t.now());
    assert_emitted_keys(&mut layout, vec![(Key::KEY_E, true), (Key::KEY_LEFTSHIFT, false)]);

    assert_eq!(layout.get_active_layers(), vec![0]);

    layout.process_keyevent(KeyStateChange::Released(B04), t.now());
    assert_emitted_keys(&mut layout, vec![(Key::KEY_E, false)]);

    assert_eq!(layout.get_active_layers(), vec![0]);

    layout.process_keyevent(KeyStateChange::Released(B02), t.now());
    assert_emitted_keys(&mut layout, vec![(Key::KEY_B, false)]);
}

fn layered_layout_with_masked_key() -> LayerSwitcher {
    let keymap_default = vec![vec![
        vec![Lhold(1), K(Key::KEY_B)],
        vec![K(Key::KEY_LEFTSHIFT), No],
    ]];
    let keymap_shift = vec![vec![
        vec![K(Key::KEY_0), Inh],
        vec![K(Key::KEY_LEFTSHIFT), Kms(vec![Key::KEY_LEFTSHIFT], vec![Key::KEY_E])],
    ]];
    let shift_layer = Layer {
        on_active_keys: vec![code(Key::KEY_LEFTSHIFT)],
        ..passthrough_layer(keymap_shift)
    };
    LayerSwitcher::new(vec![default_layer_config(keymap_default), shift_layer])
}

#[test]
fn test_layered_layout_w_masked_key() {
    let mut layout = layered_layout_with_masked_key();
    layout.start();
    let mut t = TestTime::start();

    assert_emitted_keys(&mut layout, vec![]);

    layout.process_keyevent(KeyStateChange::Pressed(B01), t.now());
    assert_emitted_keys(&mut layout, vec![(Key::KEY_LEFTSHIFT, true)]);

    layout.process_keyevent(KeyStateChange::Click(B02), t.advance_ms(1));
    assert_emitted_keys(&mut layout, vec![(Key::KEY_B, true), (Key::KEY_B, false)]);

    // This temporarily masks the Shift key
    layout.process_keyevent(KeyStateChange::Click(B04), t.now());
    assert_emitted_keys(
        &mut layout,
        vec![
            (Key::KEY_LEFTSHIFT, false),
            (Key::KEY_E, true),
            (Key::KEY_E, false),
            (Key::KEY_LEFTSHIFT, true),
        ],
    );

    layout.process_keyevent(KeyStateChange::Released(B01), t.now());
    assert_emitted_keys(&mut layout, vec![(Key::KEY_LEFTSHIFT, false)]);

    layout.process_keyevent(KeyStateChange::Click(B04), t.now());
    assert_emitted_keys(&mut layout, vec![]);
}

fn layered_layout_with_mask() -> LayerSwitcher {
    let keymap_default = vec![vec![
        vec![Lhold(1), K(Key::KEY_B)],
        vec![K(Key::KEY_LEFTSHIFT), No],
    ]];
    let keymap_shift = vec![vec![
        vec![K(Key::KEY_0), Inh],
        vec![K(Key::KEY_LEFTSHIFT), K(Key::KEY_E)],
    ]];
    let shift_layer = Layer {
        on_active_keys: vec![code(Key::KEY_LEFTSHIFT)],
        disable_active_on_press: true,
        ..passthrough_layer(keymap_shift)
    };
    LayerSwitcher::new(vec![default_layer_config(keymap_default), shift_layer])
}

#[test]
fn test_layered_layout_w_mask() {
    let mut layout = layered_layout_with_mask();
    layout.start();
    let mut t = TestTime::start();

    assert_emitted_keys(&mut layout, vec![]);

    layout.process_keyevent(KeyStateChange::Pressed(B01), t.now());
    assert_emitted_keys(&mut layout, vec![(Key::KEY_LEFTSHIFT, true)]);

    layout.process_keyevent(KeyStateChange::Click(B02), t.advance_ms(1));
    assert_emitted_keys(&mut layout, vec![(Key::KEY_B, true), (Key::KEY_B, false)]);

    // This temporarily masks the Shift key
    layout.process_keyevent(KeyStateChange::Pressed(B04), t.now());
    assert_emitted_keys(&mut layout, vec![(Key::KEY_LEFTSHIFT, false), (Key::KEY_E, true)]);

    layout.process_keyevent(KeyStateChange::Released(B04), t.now());
    assert_emitted_keys(&mut layout, vec![(Key::KEY_E, false), (Key::KEY_LEFTSHIFT, true)]);

    layout.process_keyevent(KeyStateChange::Released(B01), t.now());
    assert_emitted_keys(&mut layout, vec![(Key::KEY_LEFTSHIFT, false)]);

    layout.process_keyevent(KeyStateChange::Click(B04), t.now());
    assert_emitted_keys(&mut layout, vec![]);
}

#[test]
fn test_layered_layout_w_mask_crossed() {
    let mut layout = layered_layout_with_mask();
    layout.start();
    let mut t = TestTime::start();

    assert_emitted_keys(&mut layout, vec![]);

    layout.process_keyevent(KeyStateChange::Pressed(B01), t.now());
    assert_emitted_keys(&mut layout, vec![(Key::KEY_LEFTSHIFT, true)]);

    layout.process_keyevent(KeyStateChange::Click(B02), t.advance_ms(1));
    assert_emitted_keys(&mut layout, vec![(Key::KEY_B, true), (Key::KEY_B, false)]);

    // This temporarily masks the Shift key
    layout.process_keyevent(KeyStateChange::Pressed(B04), t.now());
    assert_emitted_keys(&mut layout, vec![(Key::KEY_LEFTSHIFT, false), (Key::KEY_E, true)]);

    layout.process_keyevent(KeyStateChange::Released(B01), t.now());
    assert_emitted_keys(&mut layout, vec![]);

    layout.process_keyevent(KeyStateChange::Released(B04), t.now());
    assert_emitted_keys(&mut layout, vec![(Key::KEY_E, false)]);

    layout.process_keyevent(KeyStateChange::Click(B04), t.now());
    assert_emitted_keys(&mut layout, vec![]);
}

fn hold_and_tap_layered_layout() -> LayerSwitcher {
    let keymap_default = vec![vec![
        vec![LhtL(1, 2), K(Key::KEY_B)],
        vec![K(Key::KEY_LEFTSHIFT), No],
    ]];
    let keymap_shift = vec![vec![
        vec![No, K(Key::KEY_T)],
        vec![K(Key::KEY_LEFTSHIFT), K(Key::KEY_E)],
    ]];
    let keymap_tap = vec![vec![
        vec![No, K(Key::KEY_3)],
        vec![K(Key::KEY_1), K(Key::KEY_2)],
    ]];
    LayerSwitcher::new(vec![
        default_layer_config(keymap_default),
        passthrough_layer(keymap_shift),
        passthrough_layer(keymap_tap),
    ])
}

#[test]
fn test_hold_and_tap_layered_layout() {
    let mut layout = hold_and_tap_layered_layout();
    layout.start();
    let mut t = TestTime::start();

    assert_emitted_keys(&mut layout, vec![]);

    layout.process_keyevent(KeyStateChange::Pressed(B01), t.now());
    assert_emitted_keys(&mut layout, vec![]);

    assert_eq!(layout.get_active_layers(), vec![0, 1]);

    layout.process_keyevent(KeyStateChange::Click(B02), t.now());
    assert_emitted_keys(&mut layout, vec![(Key::KEY_T, true), (Key::KEY_T, false)]);

    assert_eq!(layout.get_active_layers(), vec![0, 1]);

    layout.process_keyevent(KeyStateChange::Released(B01), t.advance_ms(190));
    assert_emitted_keys(&mut layout, vec![]);

    // Time was short enough for tap switch
    assert_eq!(layout.get_active_layers(), vec![0, 2]);

    layout.process_keyevent(KeyStateChange::Click(B04), t.now());
    assert_emitted_keys(&mut layout, vec![(Key::KEY_2, true), (Key::KEY_2, false)]);

    assert_eq!(layout.get_active_layers(), vec![0]);

    layout.process_keyevent(KeyStateChange::Click(B04), t.now());
    assert_emitted_keys(&mut layout, vec![]);
}

#[test]
fn test_hold_and_tap_layered_layout_long_press() {
    let mut layout = hold_and_tap_layered_layout();
    layout.start();
    let mut t = TestTime::start();

    assert_emitted_keys(&mut layout, vec![]);

    layout.process_keyevent(KeyStateChange::Pressed(B01), t.now());
    assert_emitted_keys(&mut layout, vec![]);

    assert_eq!(layout.get_active_layers(), vec![0, 1]);

    layout.process_keyevent(KeyStateChange::Click(B02), t.now());
    assert_emitted_keys(&mut layout, vec![(Key::KEY_T, true), (Key::KEY_T, false)]);

    assert_eq!(layout.get_active_layers(), vec![0, 1]);

    layout.process_keyevent(KeyStateChange::Released(B01), t.advance_ms(220));
    assert_emitted_keys(&mut layout, vec![]);

    // Time was too long for a tap switch
    assert_eq!(layout.get_active_layers(), vec![0]);

    layout.process_keyevent(KeyStateChange::Click(B04), t.now());
    assert_emitted_keys(&mut layout, vec![]);
}

fn hold_and_tap_key_layered_layout(tap: KeyGroup) -> LayerSwitcher {
    let keymap_default = vec![vec![
        vec![LhtK(1, tap), K(Key::KEY_B)],
        vec![K(Key::KEY_LEFTSHIFT), No],
    ]];
    let keymap_shift = vec![vec![
        vec![No, K(Key::KEY_T)],
        vec![K(Key::KEY_LEFTSHIFT), K(Key::KEY_E)],
    ]];
    LayerSwitcher::new(vec![default_layer_config(keymap_default), passthrough_layer(keymap_shift)])
}

#[test]
fn test_hold_and_tap_key_layered_layout() {
    let mut layout = hold_and_tap_key_layered_layout(group(vec![Key::KEY_0]));
    layout.start();
    let mut t = TestTime::start();

    assert_emitted_keys(&mut layout, vec![]);

    layout.process_keyevent(KeyStateChange::Pressed(B01), t.now());
    assert_emitted_keys(&mut layout, vec![]);

    assert_eq!(layout.get_active_layers(), vec![0, 1]);

    layout.process_keyevent(KeyStateChange::Click(B02), t.now());
    assert_emitted_keys(&mut layout, vec![(Key::KEY_T, true), (Key::KEY_T, false)]);

    assert_eq!(layout.get_active_layers(), vec![0, 1]);

    // Time was short enough for tap key
    layout.process_keyevent(KeyStateChange::Released(B01), t.advance_ms(190));
    assert_emitted_keys(&mut layout, vec![(Key::KEY_0, true), (Key::KEY_0, false)]);

    assert_eq!(layout.get_active_layers(), vec![0]);

    layout.process_keyevent(KeyStateChange::Click(B04), t.now());
    assert_emitted_keys(&mut layout, vec![]);
}

#[test]
fn test_hold_and_tap_key_layered_layout_long_press() {
    let mut layout = hold_and_tap_key_layered_layout(group(vec![Key::KEY_0]));
    layout.start();
    let mut t = TestTime::start();

    assert_emitted_keys(&mut layout, vec![]);

    layout.process_keyevent(KeyStateChange::Pressed(B01), t.now());
    assert_emitted_keys(&mut layout, vec![]);

    assert_eq!(layout.get_active_layers(), vec![0, 1]);

    layout.process_keyevent(KeyStateChange::Click(B02), t.now());
    assert_emitted_keys(&mut layout, vec![(Key::KEY_T, true), (Key::KEY_T, false)]);

    assert_eq!(layout.get_active_layers(), vec![0, 1]);

    // Time was too long for a tap key
    layout.process_keyevent(KeyStateChange::Released(B01), t.advance_ms(220));
    assert_emitted_keys(&mut layout, vec![]);

    assert_eq!(layout.get_active_layers(), vec![0]);

    layout.process_keyevent(KeyStateChange::Click(B04), t.now());
    assert_emitted_keys(&mut layout, vec![]);
}

#[test]
fn test_hold_and_tap_keygroup_layered_layout() {
    let mut layout =
        hold_and_tap_key_layered_layout(group(vec![Key::KEY_LEFTALT, Key::KEY_0]));
    layout.start();
    let mut t = TestTime::start();

    assert_emitted_keys(&mut layout, vec![]);

    layout.process_keyevent(KeyStateChange::Pressed(B01), t.now());
    assert_emitted_keys(&mut layout, vec![]);

    assert_eq!(layout.get_active_layers(), vec![0, 1]);

    layout.process_keyevent(KeyStateChange::Click(B02), t.now());
    assert_emitted_keys(&mut layout, vec![(Key::KEY_T, true), (Key::KEY_T, false)]);

    assert_eq!(layout.get_active_layers(), vec![0, 1]);

    // Time was short enough for tap key
    layout.process_keyevent(KeyStateChange::Released(B01), t.advance_ms(190));
    assert_emitted_keys(
        &mut layout,
        vec![
            (Key::KEY_LEFTALT, true),
            (Key::KEY_0, true),
            (Key::KEY_0, false),
            (Key::KEY_LEFTALT, false),
        ],
    );

    assert_eq!(layout.get_active_layers(), vec![0]);

    layout.process_keyevent(KeyStateChange::Click(B04), t.now());
    assert_emitted_keys(&mut layout, vec![]);
}

#[test]
fn test_hold_and_tap_keygroup_layered_layout_long_press() {
    let mut layout =
        hold_and_tap_key_layered_layout(group(vec![Key::KEY_LEFTALT, Key::KEY_0]));
    layout.start();
    let mut t = TestTime::start();

    assert_emitted_keys(&mut layout, vec![]);

    layout.process_keyevent(KeyStateChange::Pressed(B01), t.now());
    assert_emitted_keys(&mut layout, vec![]);

    assert_eq!(layout.get_active_layers(), vec![0, 1]);

    layout.process_keyevent(KeyStateChange::Click(B02), t.now());
    assert_emitted_keys(&mut layout, vec![(Key::KEY_T, true), (Key::KEY_T, false)]);

    assert_eq!(layout.get_active_layers(), vec![0, 1]);

    // Time was too long for a tap key
    layout.process_keyevent(KeyStateChange::Released(B01), t.advance_ms(220));
    assert_emitted_keys(&mut layout, vec![]);

    assert_eq!(layout.get_active_layers(), vec![0]);

    layout.process_keyevent(KeyStateChange::Click(B04), t.now());
    assert_emitted_keys(&mut layout, vec![]);
}
