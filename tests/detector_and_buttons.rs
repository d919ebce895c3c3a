use xppen_ack05::kbd_events::{ChangeDetector, HasState};
use xppen_ack05::layout::keys::{G, S};
use xppen_ack05::layout::layer::{event_get_used_keys, Layer};
use xppen_ack05::layout::types::{KeyCoords, KeymapEvent, LayerStatus};
use xppen_ack05::xppen_hid::{decode_report, XpPenButtons, XpPenResult};

use XpPenButtons::{XpB01, XpB02, XpB03, XpRoCCW, XpRoCW};

fn drain(d: &mut ChangeDetector) -> Vec<String> {
    let mut out = Vec::new();
    while let Some(ev) = d.next() {
        out.push(format!("{:?}", ev));
    }
    out
}

#[test]
fn detector_press_hold_release() {
    let mut d = ChangeDetector::new();
    assert!(!d.has_pressed());
    assert!(d.analyze(&vec![XpB01], 1_000));
    assert!(d.has_pressed());
    assert!(d.has_short_pressed());
    assert_eq!(drain(&mut d), vec!["Pressed(XpB01)"]);
    // exactly the threshold: not a long press
    assert!(!d.analyze(&vec![XpB01], 1_200));
    assert_eq!(drain(&mut d), Vec::<String>::new());
    assert!(!d.analyze(&vec![XpB01], 1_201));
    assert_eq!(drain(&mut d), vec!["LongPress(XpB01)"]);
    assert!(!d.has_short_pressed());
    assert!(!d.analyze(&vec![], 1_300));
    assert_eq!(drain(&mut d), vec!["Released(XpB01)"]);
    assert!(!d.has_pressed());
}

#[test]
fn detector_events_come_in_detection_order() {
    let mut d = ChangeDetector::new();
    d.analyze(&vec![XpB01, XpB02], 0);
    d.analyze(&vec![XpB02, XpB03], 10);
    assert_eq!(
        drain(&mut d),
        vec!["Pressed(XpB01)", "Pressed(XpB02)", "Released(XpB01)", "Pressed(XpB03)"]
    );
}

#[test]
fn detector_stateless_buttons_click_each_time() {
    let mut d = ChangeDetector::new();
    assert!(!d.analyze(&vec![XpRoCW], 0));
    assert!(!d.analyze(&vec![XpRoCW], 500));
    assert!(!d.analyze(&vec![], 600));
    assert_eq!(drain(&mut d), vec!["Click(XpRoCW)", "Click(XpRoCW)"]);
    assert!(!d.has_pressed());
}

#[test]
fn detector_tick_reports_long_presses() {
    let mut d = ChangeDetector::new();
    d.analyze(&vec![XpB01], 100);
    d.analyze(&vec![XpB01, XpB02], 150);
    drain(&mut d);
    d.tick(300);
    assert_eq!(drain(&mut d), Vec::<String>::new());
    d.tick(301);
    assert_eq!(drain(&mut d), vec!["LongPress(XpB01)"]);
    assert!(d.has_short_pressed());
    d.tick(351);
    assert_eq!(drain(&mut d), vec!["LongPress(XpB01)", "LongPress(XpB02)"]);
    assert!(!d.has_short_pressed());
}

#[test]
fn buttons_state_and_coords() {
    assert!(XpB01.has_state());
    assert!(!XpRoCW.has_state());
    assert!(!XpRoCCW.has_state());
    assert_eq!(XpPenButtons::XpB10.coords(), KeyCoords(0, 0, 9));
    let k: KeyCoords = XpRoCCW.into();
    assert_eq!(k, KeyCoords(0, 0, 11));
    assert_eq!(XpPenButtons::from_index(10), XpRoCW);
    assert_eq!(XpRoCW.index(), 10);
}

#[test]
fn decode_report_cases() {
    let mut buf = [0u8; 32];
    assert!(matches!(decode_report(&buf, 0), XpPenResult::Timeout));
    assert!(matches!(decode_report(&buf, 10), XpPenResult::TryAgain));
    assert!(matches!(decode_report(&buf[..5], 5), XpPenResult::TryAgain));
    buf[1] = 240;
    buf[2] = 0x81;
    buf[3] = 0x02;
    buf[7] = 0x02;
    match decode_report(&buf, 10) {
        XpPenResult::Keys(keys) => assert_eq!(
            keys,
            vec![XpB01, XpPenButtons::XpB08, XpPenButtons::XpB10, XpRoCCW]
        ),
        other => panic!("unexpected {:?}", other),
    }
    buf[2] = 0;
    buf[3] = 0;
    buf[7] = 0x01;
    match decode_report(&buf, 10) {
        XpPenResult::Keys(keys) => assert_eq!(keys, vec![XpRoCW]),
        other => panic!("unexpected {:?}", other),
    }
}

#[test]
fn key_group_builders() {
    let g = G().k(30).k(48).m(42);
    assert!(!g.sequential);
    assert_eq!(g.keys, vec![30, 48]);
    assert_eq!(g.mask, vec![42]);
    assert_eq!(g.get_used_keys(), vec![30, 48, 42]);
    let s = S().k(1);
    assert!(s.sequential);
    match s.clone().p() {
        KeymapEvent::Kg(inner) => assert_eq!(inner.keys, vec![1]),
        _ => panic!("expected a key group action"),
    }
}

#[test]
fn layer_lookup_and_used_keys() {
    let layer = Layer {
        status_on_reset: LayerStatus::LayerActive,
        inherit: None,
        on_active_keys: vec![99],
        disable_active_on_press: false,
        on_timeout_layer: None,
        timeout: None,
        keymap: vec![
            vec![vec![G().k(1).p(), KeymapEvent::No], vec![KeymapEvent::Klong(G().k(2), G().k(3).m(4))]],
            vec![vec![KeymapEvent::LhtK(0, G().k(5))]],
        ],
        default_action: KeymapEvent::Inh,
    };
    assert!(matches!(layer.get_key_event(KeyCoords(0, 0, 1)), KeymapEvent::No));
    assert!(matches!(layer.get_key_event(KeyCoords(0, 0, 2)), KeymapEvent::Inh));
    assert!(matches!(layer.get_key_event(KeyCoords(2, 0, 0)), KeymapEvent::Inh));
    assert!(matches!(layer.get_key_event(KeyCoords(1, 0, 0)), KeymapEvent::LhtK(0, _)));
    assert_eq!(layer.get_used_keys(), vec![1, 2, 3, 4, 5]);
    assert_eq!(event_get_used_keys(&KeymapEvent::Lhold(1)), Vec::<u16>::new());
}
