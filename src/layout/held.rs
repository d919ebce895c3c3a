//! Every physical key holds down exactly the keys of the chord recorded for
//! it, and nothing once it holds no record.
use vstd::prelude::*;

use super::keys::KeyGroupView;
use super::layer::Layer;
use super::mirror::{
    group_press_events, group_release_events, key_log, lemma_activate, lemma_activate_as,
    lemma_before_after, lemma_deactivate, lemma_disable, lemma_key_log_emit, lemma_move_to,
    lemma_events_for_one_origin, lemma_retire_keeps, quiet,
};
use super::model::{
    before_key_press, click_events, deactivate, dispatch_press, elapsed, emit, event_step,
    find_press, find_press_from, key_events, keygroup_press, keygroup_release,
    lemma_find_press_from, lemma_push_unique, lemma_remove_unique, long_press_step, press_step,
    presses_unique, release_layer, release_layers, release_step, remove_press, resolve,
    retire_taps, rev_keys, spec_layer_key, start_state, tagged, PressView, SwitcherView,
    HOLD_THRESHOLD_MS,
};
use super::switcher::KeyReleaseMode;
use super::types::{KeyCoords, Keycode, KeymapEvent, LayerId, LayerStatus, Millis};
use crate::kbd_events::KeyStateChange;

verus! {

/// How many more times `x` goes down than up in `e`.
pub open spec fn net(e: Seq<(Keycode, bool)>, x: Keycode) -> int
    decreases e.len(),
{
    if e.len() == 0 {
        0
    } else {
        net(e.drop_last(), x) + if e.last().0 == x {
            if e.last().1 {
                1int
            } else {
                -1int
            }
        } else {
            0int
        }
    }
}

/// How many times `x` occurs in `keys`.
pub open spec fn count(keys: Seq<Keycode>, x: Keycode) -> int
    decreases keys.len(),
{
    if keys.len() == 0 {
        0
    } else {
        count(keys.drop_last(), x) + if keys.last() == x {
            1int
        } else {
            0int
        }
    }
}

pub(crate) proof fn lemma_net_concat(a: Seq<(Keycode, bool)>, b: Seq<(Keycode, bool)>, x: Keycode)
    ensures
        net(a + b, x) == net(a, x) + net(b, x),
    decreases b.len(),
{
    if b.len() == 0 {
        assert(a + b =~= a);
    } else {
        assert((a + b).drop_last() =~= a + b.drop_last());
        assert((a + b).last() == b.last());
        lemma_net_concat(a, b.drop_last(), x);
    }
}

pub(crate) proof fn lemma_count_concat(a: Seq<Keycode>, b: Seq<Keycode>, x: Keycode)
    ensures
        count(a + b, x) == count(a, x) + count(b, x),
    decreases b.len(),
{
    if b.len() == 0 {
        assert(a + b =~= a);
    } else {
        assert((a + b).drop_last() =~= a + b.drop_last());
        assert((a + b).last() == b.last());
        lemma_count_concat(a, b.drop_last(), x);
    }
}

pub(crate) proof fn lemma_count_rev(keys: Seq<Keycode>, x: Keycode)
    ensures
        count(rev_keys(keys), x) == count(keys, x),
    decreases keys.len(),
{
    if keys.len() > 0 {
        let l = seq![keys.last()];
        assert(rev_keys(keys) =~= l + rev_keys(keys.drop_last()));
        lemma_count_concat(l, rev_keys(keys.drop_last()), x);
        lemma_count_rev(keys.drop_last(), x);
        assert(l.drop_last() =~= Seq::<Keycode>::empty());
        assert(l.last() == keys.last());
        assert(count(Seq::<Keycode>::empty(), x) == 0);
        assert(count(l, x) == if keys.last() == x {
            1int
        } else {
            0int
        });
    }
}

pub(crate) proof fn lemma_net_key_events(keys: Seq<Keycode>, pressed: bool, x: Keycode)
    ensures
        net(key_events(keys, pressed), x) == if pressed {
            count(keys, x)
        } else {
            -count(keys, x)
        },
    decreases keys.len(),
{
    if keys.len() > 0 {
        assert(key_events(keys, pressed).drop_last() =~= key_events(keys.drop_last(), pressed));
        lemma_net_key_events(keys.drop_last(), pressed, x);
    }
}

pub(crate) proof fn lemma_net_clicks(keys: Seq<Keycode>, x: Keycode)
    ensures
        net(click_events(keys), x) == 0,
    decreases keys.len(),
{
    if keys.len() > 0 {
        let pair = seq![(keys.last(), true), (keys.last(), false)];
        lemma_net_concat(click_events(keys.drop_last()), pair, x);
        lemma_net_clicks(keys.drop_last(), x);
        let one = seq![(keys.last(), true)];
        assert(pair.drop_last() =~= one);
        assert(one.drop_last() =~= Seq::<(Keycode, bool)>::empty());
        assert(pair.last() == (keys.last(), false));
        assert(one.last() == (keys.last(), true));
        assert(net(Seq::<(Keycode, bool)>::empty(), x) == 0);
        assert(net(one, x) == if keys.last() == x {
            1int
        } else {
            0int
        });
        assert(net(pair, x) == 0);
    }
}

/// What a chord holds: its keys down and its mask up.
pub open spec fn chord_held(g: KeyGroupView, x: Keycode) -> int {
    count(g.keys, x) - count(g.mask, x)
}

pub(crate) proof fn lemma_net_group_events(g: KeyGroupView, x: Keycode)
    ensures
        net(group_press_events(g, true), x) == 0,
        net(group_press_events(g, false), x) == if g.sequential {
            0
        } else {
            chord_held(g, x)
        },
        net(group_release_events(g), x) == -chord_held(g, x),
{
    let mu = key_events(g.mask, false);
    let kd = key_events(g.keys, true);
    let ku = key_events(rev_keys(g.keys), false);
    let md = key_events(rev_keys(g.mask), true);
    lemma_net_key_events(g.mask, false, x);
    lemma_net_key_events(g.keys, true, x);
    lemma_net_key_events(rev_keys(g.keys), false, x);
    lemma_net_key_events(rev_keys(g.mask), true, x);
    lemma_count_rev(g.keys, x);
    lemma_count_rev(g.mask, x);
    lemma_net_clicks(g.keys, x);
    lemma_net_concat(click_events(g.keys), md, x);
    lemma_net_concat(mu, click_events(g.keys) + md, x);
    lemma_net_concat(kd, ku, x);
    lemma_net_concat(kd + ku, md, x);
    lemma_net_concat(mu, kd + ku + md, x);
    lemma_net_concat(mu, kd, x);
    lemma_net_concat(ku, md, x);
}

/// The press record kept for key `c`, if any.
pub open spec fn record_for(ps: Seq<PressView>, c: KeyCoords) -> Option<PressView> {
    match find_press(ps, c) {
        Some(i) => Some(ps[i]),
        None => None,
    }
}

/// `find_press_from` finds `k` when `k` is the first record for `c` from `i` on.
pub(crate) proof fn lemma_find_press_first(ps: Seq<PressView>, c: KeyCoords, i: int, k: int)
    requires
        0 <= i <= k < ps.len(),
        ps[k].coords == c,
        forall|j: int| i <= j < k ==> (#[trigger] ps[j]).coords != c,
    ensures
        find_press_from(ps, c, i) == Some(k),
    decreases k - i,
{
    if i < k {
        lemma_find_press_first(ps, c, i + 1, k);
    }
}

/// `find_press_from` gives the first record for `c` from `i` on.
pub(crate) proof fn lemma_find_press_is_first(ps: Seq<PressView>, c: KeyCoords, i: int)
    requires
        0 <= i <= ps.len(),
    ensures
        match find_press_from(ps, c, i) {
            Some(k) => i <= k < ps.len() && ps[k].coords == c && forall|j: int|
                i <= j < k ==> (#[trigger] ps[j]).coords != c,
            None => forall|j: int| i <= j < ps.len() ==> (#[trigger] ps[j]).coords != c,
        },
    decreases ps.len() - i,
{
    if i < ps.len() && ps[i].coords != c {
        lemma_find_press_is_first(ps, c, i + 1);
    }
}

/// Adding a record for `d` keeps the record of every other key, and is the
/// record of `d` when `d` had none.
pub(crate) proof fn lemma_record_push(ps: Seq<PressView>, p: PressView, c: KeyCoords)
    ensures
        record_for(ps.push(p), c) == if p.coords == c && record_for(ps, c).is_none() {
            Some(p)
        } else {
            record_for(ps, c)
        },
{
    let r = ps.push(p);
    lemma_find_press_is_first(ps, c, 0);
    match find_press(ps, c) {
        Some(k) => {
            assert forall|j: int| 0 <= j < k implies (#[trigger] r[j]).coords != c by {
                assert(r[j] == ps[j]);
            }
            assert(r[k] == ps[k]);
            lemma_find_press_first(r, c, 0, k);
        },
        None => {
            if p.coords == c {
                assert forall|j: int| 0 <= j < ps.len() implies (#[trigger] r[j]).coords != c by {
                    assert(r[j] == ps[j]);
                }
                lemma_find_press_first(r, c, 0, ps.len() as int);
            } else {
                lemma_find_press_is_first(r, c, 0);
                if find_press(r, c).is_some() {
                    let k = find_press(r, c).unwrap();
                    if k < ps.len() {
                        assert(r[k] == ps[k]);
                    }
                }
            }
        },
    }
}

/// Removing a record of another key keeps the record of `c`.
pub(crate) proof fn lemma_record_remove(ps: Seq<PressView>, i: int, c: KeyCoords)
    requires
        0 <= i < ps.len(),
        ps[i].coords != c,
    ensures
        record_for(ps.remove(i), c) == record_for(ps, c),
{
    let r = ps.remove(i);
    lemma_find_press_is_first(ps, c, 0);
    lemma_find_press_is_first(r, c, 0);
    match find_press(ps, c) {
        Some(k) => {
            let k2 = if k < i {
                k
            } else {
                k - 1
            };
            assert(r[k2] == ps[k]);
            assert forall|j: int| 0 <= j < k2 implies (#[trigger] r[j]).coords != c by {
                if j < i {
                    assert(r[j] == ps[j]);
                } else {
                    assert(r[j] == ps[j + 1]);
                }
            }
            lemma_find_press_first(r, c, 0, k2);
        },
        None => {
            if find_press(r, c).is_some() {
                let k = find_press(r, c).unwrap();
                if k < i {
                    assert(r[k] == ps[k]);
                } else {
                    assert(r[k] == ps[k + 1]);
                }
            }
        },
    }
}

/// `e` for key `c` when it was emitted for key `d`; nothing otherwise.
pub open spec fn events_at(d: KeyCoords, c: KeyCoords, e: Seq<(Keycode, bool)>) -> Seq<(Keycode, bool)> {
    if d == c {
        e
    } else {
        seq![]
    }
}

/// What a key group press for key `d` adds to the key log of key `c`.
pub(crate) proof fn lemma_keygroup_press_at(
    layers: Seq<Layer>,
    s: SwitcherView,
    g: KeyGroupView,
    d: KeyCoords,
    src: LayerId,
    t: u64,
    force_click: bool,
    c: KeyCoords,
)
    requires
        tagged(s),
        c != spec_layer_key(),
    ensures
        ({
            let r = keygroup_press(layers, s, g, d, src, t, force_click);
            &&& tagged(r)
            &&& key_log(r, c) == key_log(s, c) + events_at(d, c, group_press_events(g, force_click))
            &&& r.stack.len() == s.stack.len()
            &&& (g.sequential || force_click) ==> r.presses == s.presses
            &&& (!g.sequential && !force_click) ==> r.presses == s.presses.push(
                PressView { layer: src, coords: d, mode: KeyReleaseMode::Reverse, group: g, time: t },
            )
        }),
{
    let s0 = before_key_press(layers, s, src);
    lemma_before_after(layers, s, src, c);
    let mu = key_events(g.mask, false);
    let s1 = emit(s0, mu, d);
    lemma_key_log_emit(s0, mu, d, c);
    let rest = if g.sequential {
        click_events(g.keys) + key_events(rev_keys(g.mask), true)
    } else if force_click {
        key_events(g.keys, true) + key_events(rev_keys(g.keys), false) + key_events(
            rev_keys(g.mask),
            true,
        )
    } else {
        key_events(g.keys, true)
    };
    let s2 = emit(s1, rest, d);
    lemma_key_log_emit(s1, rest, d, c);
    if g.sequential || force_click {
        lemma_before_after(layers, s2, src, c);
    }
    let e = Seq::<(Keycode, bool)>::empty();
    if d == c {
        assert(key_log(s, c) + mu + rest =~= key_log(s, c) + (mu + rest));
    } else {
        assert(key_log(s, c) + e + e =~= key_log(s, c) + e);
    }
}

/// What releasing a chord for key `d` adds to the key log of key `c`.
pub(crate) proof fn lemma_keygroup_release_at(
    layers: Seq<Layer>,
    s: SwitcherView,
    g: KeyGroupView,
    d: KeyCoords,
    src: LayerId,
    c: KeyCoords,
)
    requires
        tagged(s),
        c != spec_layer_key(),
        !g.sequential,
    ensures
        ({
            let r = keygroup_release(layers, s, g, d, src);
            &&& tagged(r)
            &&& key_log(r, c) == key_log(s, c) + events_at(d, c, group_release_events(g))
            &&& r.stack.len() == s.stack.len()
            &&& r.presses == s.presses
        }),
{
    let s1 = emit(s, group_release_events(g), d);
    lemma_key_log_emit(s, group_release_events(g), d, c);
    lemma_before_after(layers, s1, src, c);
}

pub(crate) proof fn lemma_net_events_at(d: KeyCoords, c: KeyCoords, e: Seq<(Keycode, bool)>, l: Seq<(Keycode, bool)>, x: Keycode)
    ensures
        net(l + events_at(d, c, e), x) == net(l, x) + if d == c {
            net(e, x)
        } else {
            0
        },
{
    lemma_net_concat(l, events_at(d, c, e), x);
}

/// The release of `d` changes no key's net count through the layers that
/// waited for it: what they click goes down and up.
pub(crate) proof fn lemma_release_layer_at(
    layers: Seq<Layer>,
    s: SwitcherView,
    d: KeyCoords,
    t: u64,
    idx: LayerId,
    c: KeyCoords,
)
    requires
        tagged(s),
        c != spec_layer_key(),
        idx < s.stack.len(),
    ensures
        ({
            let r = release_layer(layers, s, d, t, idx);
            &&& tagged(r)
            &&& forall|x: Keycode| net(#[trigger] key_log(r, c), x) == net(key_log(s, c), x)
            &&& r.presses == s.presses
            &&& r.stack.len() == s.stack.len()
        }),
{
    let r = release_layer(layers, s, d, t, idx);
    match s.stack[idx as int].status {
        LayerStatus::LayerActiveUntilKeyRelease(w) => {
            lemma_deactivate(layers, s, idx, c);
        },
        LayerStatus::LayerActiveUntilKeyReleaseTap(w) => {},
        LayerStatus::LayerHoldAndTapKey(w, t0, l) => {
            if w == d {
                lemma_deactivate(layers, s, idx, c);
                let s1 = deactivate(layers, s, idx);
                if elapsed(t, t0) < HOLD_THRESHOLD_MS && l < layers.len() {
                    match layers[l as int].spec_key_event(w) {
                        KeymapEvent::LhtK(_, k) => {
                            lemma_keygroup_press_at(layers, s1, k@, d, l, t, true, c);
                            assert forall|x: Keycode| net(#[trigger] key_log(r, c), x) == net(key_log(s, c), x) by {
                                lemma_net_events_at(d, c, group_press_events(k@, true), key_log(s1, c), x);
                                lemma_net_group_events(k@, x);
                            }
                        },
                        _ => {},
                    }
                }
            }
        },
        LayerStatus::LayerHoldAndTapToL(w, t0, next) => {
            if w == d {
                lemma_deactivate(layers, s, idx, c);
                let s1 = deactivate(layers, s, idx);
                if elapsed(t, t0) < HOLD_THRESHOLD_MS {
                    lemma_activate_as(layers, s1, next, LayerStatus::LayerActiveUntilAnyKeyPress, c);
                }
            }
        },
        _ => {},
    }
}

pub(crate) proof fn lemma_release_layers_at(
    layers: Seq<Layer>,
    s: SwitcherView,
    d: KeyCoords,
    t: u64,
    i: int,
    c: KeyCoords,
)
    requires
        tagged(s),
        c != spec_layer_key(),
        layers.len() <= usize::MAX,
    ensures
        ({
            let r = release_layers(layers, s, d, t, i);
            &&& tagged(r)
            &&& forall|x: Keycode| net(#[trigger] key_log(r, c), x) == net(key_log(s, c), x)
            &&& r.presses == s.presses
            &&& r.stack.len() == s.stack.len()
        }),
    decreases layers.len() - i,
{
    if 0 <= i < layers.len() {
        let s1 = if i < s.stack.len() {
            release_layer(layers, s, d, t, i as LayerId)
        } else {
            s
        };
        if i < s.stack.len() {
            lemma_release_layer_at(layers, s, d, t, i as LayerId, c);
        }
        lemma_release_layers_at(layers, s1, d, t, i + 1, c);
    }
}

/// What the action `a` resolved for key `d` does, as seen from key `c`.
pub(crate) proof fn lemma_dispatch_at(
    layers: Seq<Layer>,
    s: SwitcherView,
    a: KeymapEvent,
    d: KeyCoords,
    src: LayerId,
    t: u64,
    c: KeyCoords,
)
    requires
        tagged(s),
        c != spec_layer_key(),
        layers.len() <= usize::MAX,
    ensures
        ({
            let r = dispatch_press(layers, s, a, d, src, t);
            &&& tagged(r)
            &&& r.stack.len() == s.stack.len()
            &&& match a {
                KeymapEvent::Kg(g) => {
                    &&& key_log(r, c) == key_log(s, c) + events_at(d, c, group_press_events(g@, false))
                    &&& g@.sequential ==> r.presses == s.presses
                    &&& !g@.sequential ==> r.presses == s.presses.push(
                        PressView { layer: src, coords: d, mode: KeyReleaseMode::Reverse, group: g@, time: t },
                    )
                },
                KeymapEvent::Klong(g, _) => key_log(r, c) == key_log(s, c) && r.presses == s.presses.push(
                    PressView { layer: src, coords: d, mode: KeyReleaseMode::ForceClick, group: g@, time: t },
                ),
                KeymapEvent::Khl(g, _) => key_log(r, c) == key_log(s, c) && r.presses == s.presses.push(
                    PressView { layer: src, coords: d, mode: KeyReleaseMode::ForceClick, group: g@, time: t },
                ),
                KeymapEvent::Khtl(g, _) => key_log(r, c) == key_log(s, c) && r.presses == s.presses.push(
                    PressView { layer: src, coords: d, mode: KeyReleaseMode::ForceClick, group: g@, time: t },
                ),
                _ => key_log(r, c) == key_log(s, c) && r.presses == s.presses,
            }
        }),
{
    match a {
        KeymapEvent::Kg(g) => {
            lemma_keygroup_press_at(layers, s, g@, d, src, t, false, c);
        },
        KeymapEvent::Lmove(i) => {
            lemma_move_to(layers, s, i, c);
        },
        KeymapEvent::Lhold(i) => {
            lemma_activate_as(layers, s, i, LayerStatus::LayerActiveUntilKeyRelease(d), c);
        },
        KeymapEvent::Ltap(i) => {
            lemma_activate_as(layers, s, i, LayerStatus::LayerActiveUntilKeyReleaseTap(d), c);
        },
        KeymapEvent::Lactivate(i) => {
            lemma_activate(layers, s, i, c);
        },
        KeymapEvent::Ldeactivate(i) => {
            lemma_deactivate(layers, s, i, c);
        },
        KeymapEvent::Ldisable(i) => {
            lemma_disable(layers, s, i, c);
        },
        KeymapEvent::LhtL(i, j) => {
            lemma_activate_as(layers, s, i, LayerStatus::LayerHoldAndTapToL(d, t, j), c);
        },
        KeymapEvent::LhtK(i, _) => {
            lemma_activate_as(layers, s, i, LayerStatus::LayerHoldAndTapKey(d, t, src), c);
        },
        _ => {},
    }
}

/// How many times key code `x` is held down on behalf of key `c`: a chord
/// recorded for `c` holds its keys down and its mask up; otherwise nothing.
pub open spec fn held_by(s: SwitcherView, c: KeyCoords, x: Keycode) -> int {
    match record_for(s.presses, c) {
        Some(p) => if p.mode == KeyReleaseMode::Reverse {
            chord_held(p.group, x)
        } else {
            0
        },
        None => 0,
    }
}

/// Records that release a chord hold a chord, not a sequence.
pub open spec fn chords_recorded(ps: Seq<PressView>) -> bool {
    forall|i: int|
        0 <= i < ps.len() && (#[trigger] ps[i]).mode == KeyReleaseMode::Reverse
            ==> !ps[i].group.sequential
}

/// For every physical key, the key events queued for it hold down exactly
/// what its record holds.
pub open spec fn keys_accounted(s: SwitcherView) -> bool {
    forall|c: KeyCoords, x: Keycode|
        c != spec_layer_key() ==> #[trigger] net(key_log(s, c), x) == held_by(s, c, x)
}

pub open spec fn run_inv(layers: Seq<Layer>, s: SwitcherView) -> bool {
    &&& s.stack.len() == layers.len()
    &&& tagged(s)
    &&& presses_unique(s.presses)
    &&& chords_recorded(s.presses)
    &&& keys_accounted(s)
}

/// The switcher after the events `evs`, each with its time, without the
/// queue ever being rendered: its queue is then the whole output.
pub open spec fn run(
    layers: Seq<Layer>,
    s: SwitcherView,
    evs: Seq<(KeyStateChange<KeyCoords>, Millis)>,
) -> SwitcherView
    decreases evs.len(),
{
    if evs.len() == 0 {
        s
    } else {
        event_step(layers, run(layers, s, evs.drop_last()), evs.last().0, evs.last().1)
    }
}

proof fn lemma_press_at(layers: Seq<Layer>, s: SwitcherView, d: KeyCoords, t: Millis, c: KeyCoords, x: Keycode)
    requires
        run_inv(layers, s),
        layers.len() <= usize::MAX,
        c != spec_layer_key(),
        find_press(s.presses, d).is_none(),
    ensures
        ({
            let (src, ev) = resolve(layers, s.stack, d);
            let s1 = match ev {
                Some(a) => dispatch_press(layers, s, a, d, src, t),
                None => s,
            };
            let p = retire_taps(layers, s1, 0);
            &&& net(key_log(p, c), x) == held_by(p, c, x)
            &&& quiet(s1, p, c)
        }),
{
    let (src, ev) = resolve(layers, s.stack, d);
    let s1 = match ev {
        Some(a) => dispatch_press(layers, s, a, d, src, t),
        None => s,
    };
    let p = retire_taps(layers, s1, 0);
    assert(net(key_log(s, c), x) == held_by(s, c, x));
    lemma_find_press_from(s.presses, d, 0);
    assert(record_for(s.presses, d).is_none());
    match ev {
        None => {},
        Some(a) => {
            lemma_dispatch_at(layers, s, a, d, src, t, c);
            match a {
                KeymapEvent::Kg(g) => {
                    lemma_net_events_at(d, c, group_press_events(g@, false), key_log(s, c), x);
                    lemma_net_group_events(g@, x);
                    if !g@.sequential {
                        lemma_record_push(
                            s.presses,
                            PressView { layer: src, coords: d, mode: KeyReleaseMode::Reverse, group: g@, time: t },
                            c,
                        );
                    }
                },
                KeymapEvent::Klong(g, _) => {
                    lemma_record_push(
                        s.presses,
                        PressView { layer: src, coords: d, mode: KeyReleaseMode::ForceClick, group: g@, time: t },
                        c,
                    );
                },
                KeymapEvent::Khl(g, _) => {
                    lemma_record_push(
                        s.presses,
                        PressView { layer: src, coords: d, mode: KeyReleaseMode::ForceClick, group: g@, time: t },
                        c,
                    );
                },
                KeymapEvent::Khtl(g, _) => {
                    lemma_record_push(
                        s.presses,
                        PressView { layer: src, coords: d, mode: KeyReleaseMode::ForceClick, group: g@, time: t },
                        c,
                    );
                },
                _ => {},
            }
        },
    }
    lemma_retire_keeps(layers, s1, c);
}

proof fn lemma_press_keeps(layers: Seq<Layer>, s: SwitcherView, d: KeyCoords, t: Millis)
    requires
        run_inv(layers, s),
        layers.len() <= usize::MAX,
    ensures
        run_inv(layers, press_step(layers, s, d, t)),
{
    if find_press(s.presses, d).is_none() {
        let (src, ev) = resolve(layers, s.stack, d);
        let s1 = match ev {
            Some(a) => dispatch_press(layers, s, a, d, src, t),
            None => s,
        };
        let p = retire_taps(layers, s1, 0);
        assert(press_step(layers, s, d, t) == p);
        let lk = spec_layer_key();
        let c0 = if d == lk { KeyCoords(0, 0, 0) } else { d };
        assert(c0 != lk);
        lemma_press_at(layers, s, d, t, c0, 0);
        match ev {
            None => {},
            Some(a) => {
                lemma_dispatch_at(layers, s, a, d, src, t, c0);
                match a {
                    KeymapEvent::Kg(g) => {
                        if !g@.sequential {
                            lemma_push_unique(
                                s.presses,
                                PressView { layer: src, coords: d, mode: KeyReleaseMode::Reverse, group: g@, time: t },
                            );
                        }
                    },
                    KeymapEvent::Klong(g, _) => {
                        lemma_push_unique(
                            s.presses,
                            PressView { layer: src, coords: d, mode: KeyReleaseMode::ForceClick, group: g@, time: t },
                        );
                    },
                    KeymapEvent::Khl(g, _) => {
                        lemma_push_unique(
                            s.presses,
                            PressView { layer: src, coords: d, mode: KeyReleaseMode::ForceClick, group: g@, time: t },
                        );
                    },
                    KeymapEvent::Khtl(g, _) => {
                        lemma_push_unique(
                            s.presses,
                            PressView { layer: src, coords: d, mode: KeyReleaseMode::ForceClick, group: g@, time: t },
                        );
                    },
                    _ => {},
                }
            },
        }
        assert forall|i: int|
            0 <= i < p.presses.len() && (#[trigger] p.presses[i]).mode == KeyReleaseMode::Reverse
                implies !p.presses[i].group.sequential by {
            if i < s.presses.len() {
                assert(p.presses[i] == s.presses[i]);
            }
        }
        assert forall|c: KeyCoords, x: Keycode|
            c != spec_layer_key() implies #[trigger] net(key_log(p, c), x) == held_by(p, c, x) by {
            lemma_press_at(layers, s, d, t, c, x);
        }
    }
}

proof fn lemma_release_at(layers: Seq<Layer>, s: SwitcherView, d: KeyCoords, t: Millis, c: KeyCoords, x: Keycode)
    requires
        run_inv(layers, s),
        layers.len() <= usize::MAX,
        c != spec_layer_key(),
    ensures
        ({
            let r = release_step(layers, s, d, t);
            &&& net(key_log(r, c), x) == held_by(r, c, x)
            &&& tagged(r)
            &&& r.stack.len() == s.stack.len()
            &&& match find_press(s.presses, d) {
                None => r.presses == s.presses,
                Some(i) => r.presses == s.presses.remove(i),
            }
        }),
{
    let r1 = release_layers(layers, s, d, t, 0);
    lemma_release_layers_at(layers, s, d, t, 0, c);
    assert(net(key_log(s, c), x) == held_by(s, c, x));
    lemma_find_press_from(s.presses, d, 0);
    match find_press(r1.presses, d) {
        None => {},
        Some(i) => {
            let p = r1.presses[i];
            let s2 = remove_press(r1, i);
            assert(key_log(s2, c) == key_log(r1, c));
            if c == d {
                lemma_remove_unique(s.presses, d, i);
                lemma_find_press_from(s.presses.remove(i), d, 0);
            } else {
                lemma_record_remove(s.presses, i, c);
            }
            if p.mode == KeyReleaseMode::ForceClick {
                lemma_keygroup_press_at(layers, s2, p.group, d, p.layer, t, true, c);
                let s3 = keygroup_press(layers, s2, p.group, d, p.layer, t, true);
                lemma_before_after(layers, s3, p.layer, c);
                lemma_net_events_at(d, c, group_press_events(p.group, true), key_log(s2, c), x);
                lemma_net_group_events(p.group, x);
            } else {
                assert(!p.group.sequential);
                lemma_keygroup_release_at(layers, s2, p.group, d, p.layer, c);
                let s3 = keygroup_release(layers, s2, p.group, d, p.layer);
                lemma_before_after(layers, s3, p.layer, c);
                lemma_net_events_at(d, c, group_release_events(p.group), key_log(s2, c), x);
                lemma_net_group_events(p.group, x);
            }
        },
    }
}

proof fn lemma_release_keeps(layers: Seq<Layer>, s: SwitcherView, d: KeyCoords, t: Millis)
    requires
        run_inv(layers, s),
        layers.len() <= usize::MAX,
    ensures
        run_inv(layers, release_step(layers, s, d, t)),
{
    let r = release_step(layers, s, d, t);
    let c0 = if d == spec_layer_key() { KeyCoords(0, 0, 0) } else { d };
    lemma_release_at(layers, s, d, t, c0, 0);
    lemma_find_press_from(s.presses, d, 0);
    match find_press(s.presses, d) {
        None => {},
        Some(i) => {
            lemma_remove_unique(s.presses, d, i);
            assert forall|j: int|
                0 <= j < r.presses.len() && (#[trigger] r.presses[j]).mode == KeyReleaseMode::Reverse
                    implies !r.presses[j].group.sequential by {
                if j < i {
                    assert(r.presses[j] == s.presses[j]);
                } else {
                    assert(r.presses[j] == s.presses[j + 1]);
                }
            }
        },
    }
    assert forall|c: KeyCoords, x: Keycode|
        c != spec_layer_key() implies #[trigger] net(key_log(r, c), x) == held_by(r, c, x) by {
        lemma_release_at(layers, s, d, t, c, x);
    }
}

proof fn lemma_long_press_at(layers: Seq<Layer>, s: SwitcherView, d: KeyCoords, t: Millis, c: KeyCoords, x: Keycode)
    requires
        run_inv(layers, s),
        layers.len() <= usize::MAX,
        c != spec_layer_key(),
    ensures
        ({
            let r = long_press_step(layers, s, d, t);
            &&& net(key_log(r, c), x) == held_by(r, c, x)
            &&& tagged(r)
            &&& r.stack.len() == s.stack.len()
        }),
{
    assert(net(key_log(s, c), x) == held_by(s, c, x));
    lemma_find_press_from(s.presses, d, 0);
    match find_press(s.presses, d) {
        None => {},
        Some(i) => {
            let p = s.presses[i];
            if !(elapsed(t, p.time) <= HOLD_THRESHOLD_MS || p.layer >= layers.len()) && p.mode
                == KeyReleaseMode::ForceClick {
                let s2 = remove_press(s, i);
                if c == d {
                    lemma_remove_unique(s.presses, d, i);
                    lemma_find_press_from(s.presses.remove(i), d, 0);
                } else {
                    lemma_record_remove(s.presses, i, c);
                }
                match layers[p.layer as int].spec_key_event(d) {
                    KeymapEvent::Klong(_, long) => {
                        lemma_keygroup_press_at(layers, s2, long@, d, p.layer, t, false, c);
                        lemma_net_events_at(d, c, group_press_events(long@, false), key_log(s2, c), x);
                        lemma_net_group_events(long@, x);
                        if !long@.sequential {
                            lemma_record_push(
                                s2.presses,
                                PressView { layer: p.layer, coords: d, mode: KeyReleaseMode::Reverse, group: long@, time: t },
                                c,
                            );
                        }
                    },
                    KeymapEvent::Khtl(_, l) => {
                        lemma_activate_as(layers, s2, l, LayerStatus::LayerActiveUntilAnyKeyPress, c);
                    },
                    KeymapEvent::Khl(_, l) => {
                        lemma_activate(layers, s2, l, c);
                    },
                    _ => {},
                }
            }
        },
    }
}

proof fn lemma_long_press_keeps(layers: Seq<Layer>, s: SwitcherView, d: KeyCoords, t: Millis)
    requires
        run_inv(layers, s),
        layers.len() <= usize::MAX,
    ensures
        run_inv(layers, long_press_step(layers, s, d, t)),
{
    let r = long_press_step(layers, s, d, t);
    let c0 = if d == spec_layer_key() { KeyCoords(0, 0, 0) } else { d };
    lemma_long_press_at(layers, s, d, t, c0, 0);
    lemma_find_press_from(s.presses, d, 0);
    match find_press(s.presses, d) {
        None => {},
        Some(i) => {
            let p = s.presses[i];
            if !(elapsed(t, p.time) <= HOLD_THRESHOLD_MS || p.layer >= layers.len()) && p.mode
                == KeyReleaseMode::ForceClick {
                let s2 = remove_press(s, i);
                lemma_remove_unique(s.presses, d, i);
                assert forall|j: int|
                    0 <= j < s2.presses.len() && (#[trigger] s2.presses[j]).mode == KeyReleaseMode::Reverse
                        implies !s2.presses[j].group.sequential by {
                    if j < i {
                        assert(s2.presses[j] == s.presses[j]);
                    } else {
                        assert(s2.presses[j] == s.presses[j + 1]);
                    }
                }
                match layers[p.layer as int].spec_key_event(d) {
                    KeymapEvent::Klong(_, long) => {
                        lemma_keygroup_press_at(layers, s2, long@, d, p.layer, t, false, c0);
                        if !long@.sequential {
                            let rec = PressView { layer: p.layer, coords: d, mode: KeyReleaseMode::Reverse, group: long@, time: t };
                            lemma_push_unique(s2.presses, rec);
                            assert forall|j: int|
                                0 <= j < r.presses.len() && (#[trigger] r.presses[j]).mode == KeyReleaseMode::Reverse
                                    implies !r.presses[j].group.sequential by {
                                if j < s2.presses.len() {
                                    assert(r.presses[j] == s2.presses[j]);
                                }
                            }
                        }
                    },
                    KeymapEvent::Khtl(_, l) => {
                        lemma_activate_as(layers, s2, l, LayerStatus::LayerActiveUntilAnyKeyPress, c0);
                    },
                    KeymapEvent::Khl(_, l) => {
                        lemma_activate(layers, s2, l, c0);
                    },
                    _ => {},
                }
            }
        },
    }
    assert forall|c: KeyCoords, x: Keycode|
        c != spec_layer_key() implies #[trigger] net(key_log(r, c), x) == held_by(r, c, x) by {
        lemma_long_press_at(layers, s, d, t, c, x);
    }
}

proof fn lemma_event_keeps(layers: Seq<Layer>, s: SwitcherView, ev: KeyStateChange<KeyCoords>, t: Millis)
    requires
        run_inv(layers, s),
        layers.len() <= usize::MAX,
    ensures
        run_inv(layers, event_step(layers, s, ev, t)),
{
    match ev {
        KeyStateChange::Pressed(d) => lemma_press_keeps(layers, s, d, t),
        KeyStateChange::Released(d) => lemma_release_keeps(layers, s, d, t),
        KeyStateChange::Click(d) => {
            lemma_press_keeps(layers, s, d, t);
            lemma_release_keeps(layers, press_step(layers, s, d, t), d, t);
        },
        KeyStateChange::LongPress(d) => lemma_long_press_keeps(layers, s, d, t),
    }
}

proof fn lemma_run_keeps(layers: Seq<Layer>, evs: Seq<(KeyStateChange<KeyCoords>, Millis)>)
    requires
        layers.len() <= usize::MAX,
    ensures
        run_inv(layers, run(layers, start_state(layers), evs)),
    decreases evs.len(),
{
    if evs.len() == 0 {
        let s = start_state(layers);
        assert forall|c: KeyCoords, x: Keycode|
            c != spec_layer_key() implies #[trigger] net(key_log(s, c), x) == held_by(s, c, x) by {
            lemma_events_for_one_origin(s.emitted, spec_layer_key(), c);
        }
    } else {
        lemma_run_keeps(layers, evs.drop_last());
        lemma_event_keeps(layers, run(layers, start_state(layers), evs.drop_last()), evs.last().0, evs.last().1);
    }
}

/// After any events since `start`, every physical key has as many key-downs
/// as key-ups of each key code among the key events emitted for it, except
/// what a chord recorded for it holds: one key-down more for each of its keys
/// and one key-up more for each key of its mask. So a key that holds no
/// record (a quiescent key) has every key-down emitted for it paired with a
/// key-up.
pub proof fn lemma_keys_held_by_records(
    layers: Seq<Layer>,
    evs: Seq<(KeyStateChange<KeyCoords>, Millis)>,
    c: KeyCoords,
    x: Keycode,
)
    requires
        layers.len() <= usize::MAX,
        c != spec_layer_key(),
    ensures
        ({
            let s = run(layers, start_state(layers), evs);
            &&& net(key_log(s, c), x) == match record_for(s.presses, c) {
                Some(p) => if p.mode == KeyReleaseMode::Reverse {
                    count(p.group.keys, x) - count(p.group.mask, x)
                } else {
                    0
                },
                None => 0,
            }
            &&& record_for(s.presses, c).is_none() ==> net(key_log(s, c), x) == 0
            &&& presses_unique(s.presses)
        }),
{
    lemma_run_keeps(layers, evs);
}

} // verus!
