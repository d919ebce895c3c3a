//! Pressing and then releasing a key that is up emits, for that key, key-ups
//! that mirror its key-downs.
use vstd::prelude::*;

use super::keys::KeyGroupView;
use super::layer::Layer;
use super::model::{
    activate, activate_as, after_key_release, base_active, before_key_press, click_events,
    deactivate, deactivate_others, disable, dispatch_press, elapsed, emit, event_step,
    find_press, find_press_from, key_events, keygroup_press, keygroup_release,
    lemma_find_press_from, move_to, on_activation, on_deactivation, press_step, push_press,
    release_layer, release_layers, release_step, remove_press, resolve, retire_taps, rev_keys,
    set_status, spec_layer_key, switcher_inv, tagged, PressView, SwitcherView,
    HOLD_THRESHOLD_MS,
};
use super::switcher::{KeyReleaseMode, LayerStackEntry};
use super::types::{KeyCoords, Keycode, KeymapEvent, LayerId, LayerStatus};
use crate::kbd_events::KeyStateChange;

verus! {

/// The events of `e` whose origin in `o` is key `c`.
pub open spec fn events_for(e: Seq<(Keycode, bool)>, o: Seq<KeyCoords>, c: KeyCoords) -> Seq<
    (Keycode, bool),
>
    decreases e.len(),
{
    if e.len() == 0 || o.len() == 0 {
        seq![]
    } else {
        events_for(e.drop_last(), o.drop_last(), c) + if o.last() == c {
            seq![e.last()]
        } else {
            seq![]
        }
    }
}

/// The queued key events that were emitted for key `c`.
pub open spec fn key_log(s: SwitcherView, c: KeyCoords) -> Seq<(Keycode, bool)> {
    events_for(s.emitted, s.origins, c)
}

/// The key codes that go down in `e`, in order.
pub open spec fn keys_down(e: Seq<(Keycode, bool)>) -> Seq<Keycode>
    decreases e.len(),
{
    if e.len() == 0 {
        seq![]
    } else {
        keys_down(e.drop_last()) + if e.last().1 {
            seq![e.last().0]
        } else {
            seq![]
        }
    }
}

/// The key codes that go up in `e`, in order.
pub open spec fn keys_up(e: Seq<(Keycode, bool)>) -> Seq<Keycode>
    decreases e.len(),
{
    if e.len() == 0 {
        seq![]
    } else {
        keys_up(e.drop_last()) + if !e.last().1 {
            seq![e.last().0]
        } else {
            seq![]
        }
    }
}

/// The keys go down in `e` in the reverse order of the order they go up.
pub open spec fn mirrored(e: Seq<(Keycode, bool)>) -> bool {
    keys_down(e) == rev_keys(keys_up(e))
}

pub(crate) proof fn lemma_events_for_concat(
    e1: Seq<(Keycode, bool)>,
    o1: Seq<KeyCoords>,
    e2: Seq<(Keycode, bool)>,
    o2: Seq<KeyCoords>,
    c: KeyCoords,
)
    requires
        e1.len() == o1.len(),
        e2.len() == o2.len(),
    ensures
        events_for(e1 + e2, o1 + o2, c) == events_for(e1, o1, c) + events_for(e2, o2, c),
    decreases e2.len(),
{
    if e2.len() == 0 {
        assert(e1 + e2 =~= e1);
        assert(o1 + o2 =~= o1);
        assert(events_for(e1, o1, c) + seq![] =~= events_for(e1, o1, c));
    } else {
        assert((e1 + e2).drop_last() =~= e1 + e2.drop_last());
        assert((o1 + o2).drop_last() =~= o1 + o2.drop_last());
        lemma_events_for_concat(e1, o1, e2.drop_last(), o2.drop_last(), c);
        assert((e1 + e2).last() == e2.last());
        assert((o1 + o2).last() == o2.last());
        let tail = if o2.last() == c {
            seq![e2.last()]
        } else {
            seq![]
        };
        assert(events_for(e1, o1, c) + events_for(e2.drop_last(), o2.drop_last(), c) + tail
            =~= events_for(e1, o1, c) + (events_for(e2.drop_last(), o2.drop_last(), c) + tail));
    }
}

pub(crate) proof fn lemma_events_for_one_origin(e: Seq<(Keycode, bool)>, d: KeyCoords, c: KeyCoords)
    ensures
        events_for(e, Seq::new(e.len(), |i: int| d), c) == if d == c {
            e
        } else {
            seq![]
        },
    decreases e.len(),
{
    if e.len() > 0 {
        let o = Seq::new(e.len(), |i: int| d);
        assert(o.drop_last() =~= Seq::new(e.drop_last().len(), |i: int| d));
        lemma_events_for_one_origin(e.drop_last(), d, c);
        if d == c {
            assert(e.drop_last() + seq![e.last()] =~= e);
        } else {
            assert(Seq::<(Keycode, bool)>::empty() + Seq::<(Keycode, bool)>::empty() =~= Seq::<
                (Keycode, bool),
            >::empty());
        }
    }
}

/// Emitting on behalf of `d` adds to the key log of `c` exactly when `d` is `c`.
pub(crate) proof fn lemma_key_log_emit(s: SwitcherView, e: Seq<(Keycode, bool)>, d: KeyCoords, c: KeyCoords)
    requires
        s.emitted.len() == s.origins.len(),
    ensures
        key_log(emit(s, e, d), c) == key_log(s, c) + if d == c {
            e
        } else {
            seq![]
        },
        emit(s, e, d).emitted.len() == emit(s, e, d).origins.len(),
{
    lemma_events_for_concat(s.emitted, s.origins, e, Seq::new(e.len(), |i: int| d), c);
    lemma_events_for_one_origin(e, d, c);
    if d != c {
        assert(key_log(s, c) + Seq::<(Keycode, bool)>::empty() =~= key_log(s, c));
    }
}

pub(crate) proof fn lemma_keys_concat(a: Seq<(Keycode, bool)>, b: Seq<(Keycode, bool)>)
    ensures
        keys_down(a + b) == keys_down(a) + keys_down(b),
        keys_up(a + b) == keys_up(a) + keys_up(b),
    decreases b.len(),
{
    if b.len() == 0 {
        assert(a + b =~= a);
        assert(keys_down(a) + seq![] =~= keys_down(a));
        assert(keys_up(a) + seq![] =~= keys_up(a));
    } else {
        assert((a + b).drop_last() =~= a + b.drop_last());
        assert((a + b).last() == b.last());
        lemma_keys_concat(a, b.drop_last());
        let d = if b.last().1 {
            seq![b.last().0]
        } else {
            seq![]
        };
        let u = if !b.last().1 {
            seq![b.last().0]
        } else {
            seq![]
        };
        assert(keys_down(a) + keys_down(b.drop_last()) + d =~= keys_down(a) + (keys_down(
            b.drop_last(),
        ) + d));
        assert(keys_up(a) + keys_up(b.drop_last()) + u =~= keys_up(a) + (keys_up(b.drop_last())
            + u));
    }
}

pub(crate) proof fn lemma_keys_of_key_events(x: Seq<Keycode>, pressed: bool)
    ensures
        keys_down(key_events(x, pressed)) == if pressed {
            x
        } else {
            seq![]
        },
        keys_up(key_events(x, pressed)) == if pressed {
            seq![]
        } else {
            x
        },
    decreases x.len(),
{
    if x.len() > 0 {
        assert(key_events(x, pressed).drop_last() =~= key_events(x.drop_last(), pressed));
        lemma_keys_of_key_events(x.drop_last(), pressed);
        assert(x.drop_last() + seq![x.last()] =~= x);
        assert(Seq::<Keycode>::empty() + Seq::<Keycode>::empty() =~= Seq::<Keycode>::empty());
    }
}

/// Whether a group's press and release mirror each other: a chord, or a
/// sequence of at most one key.
pub open spec fn group_mirrors(g: KeyGroupView) -> bool {
    !g.sequential || g.keys.len() <= 1
}

/// What a key group press emits for its own key.
pub open spec fn group_press_events(g: KeyGroupView, force_click: bool) -> Seq<(Keycode, bool)> {
    if g.sequential {
        key_events(g.mask, false) + (click_events(g.keys) + key_events(rev_keys(g.mask), true))
    } else if force_click {
        key_events(g.mask, false) + (key_events(g.keys, true) + key_events(rev_keys(g.keys), false)
            + key_events(rev_keys(g.mask), true))
    } else {
        key_events(g.mask, false) + key_events(g.keys, true)
    }
}

/// What releasing a recorded chord emits for its own key.
pub open spec fn group_release_events(g: KeyGroupView) -> Seq<(Keycode, bool)> {
    key_events(rev_keys(g.keys), false) + key_events(rev_keys(g.mask), true)
}

pub(crate) proof fn lemma_rev_concat(a: Seq<Keycode>, b: Seq<Keycode>)
    ensures
        rev_keys(a + b) == rev_keys(b) + rev_keys(a),
        rev_keys(rev_keys(a)) == a,
{
    assert(rev_keys(a + b) =~= rev_keys(b) + rev_keys(a));
    assert(rev_keys(rev_keys(a)) =~= a);
}

/// A clicked group, and a pressed chord together with its release, mirror.
pub(crate) proof fn lemma_group_events_mirror(g: KeyGroupView)
    requires
        group_mirrors(g),
    ensures
        mirrored(group_press_events(g, true)),
        !g.sequential ==> mirrored(group_press_events(g, false) + group_release_events(g)),
        g.sequential ==> mirrored(group_press_events(g, false)),
{
    let mu = key_events(g.mask, false);
    let kd = key_events(g.keys, true);
    let ku = key_events(rev_keys(g.keys), false);
    let md = key_events(rev_keys(g.mask), true);
    lemma_keys_of_key_events(g.mask, false);
    lemma_keys_of_key_events(g.keys, true);
    lemma_keys_of_key_events(rev_keys(g.keys), false);
    lemma_keys_of_key_events(rev_keys(g.mask), true);
    lemma_rev_concat(g.mask, rev_keys(g.keys));
    lemma_rev_concat(g.keys, g.mask);
    let e: Seq<Keycode> = seq![];
    if g.sequential {
        let ce = click_events(g.keys);
        let ck: Seq<Keycode> = if g.keys.len() == 0 {
            seq![]
        } else {
            seq![g.keys[0]]
        };
        if g.keys.len() == 0 {
            assert(ce == Seq::<(Keycode, bool)>::empty());
        } else {
            assert(g.keys.drop_last() =~= Seq::<Keycode>::empty());
            assert(click_events(g.keys.drop_last()) == Seq::<(Keycode, bool)>::empty());
            assert(ce =~= seq![(g.keys[0], true), (g.keys[0], false)]);
            let p = seq![(g.keys[0], true), (g.keys[0], false)];
            assert(p.drop_last() =~= seq![(g.keys[0], true)]);
            let one = seq![(g.keys[0], true)];
            assert(one.drop_last() =~= Seq::<(Keycode, bool)>::empty());
            assert(one.last() == (g.keys[0], true));
            assert(keys_down(Seq::<(Keycode, bool)>::empty()) == e);
            assert(keys_up(Seq::<(Keycode, bool)>::empty()) == e);
            assert(e + seq![g.keys[0]] =~= ck);
            assert(e + e =~= e);
            assert(keys_down(seq![(g.keys[0], true)]) =~= ck);
            assert(keys_up(seq![(g.keys[0], true)]) =~= e);
            assert(keys_down(p) =~= ck);
            assert(keys_up(p) =~= ck);
        }
        assert(keys_down(ce) == ck);
        assert(keys_up(ce) == ck);
        lemma_keys_concat(ce, md);
        lemma_keys_concat(mu, ce + md);
        assert(rev_keys(ck) =~= ck);
        lemma_rev_concat(g.mask, ck);
        assert(keys_down(group_press_events(g, true)) =~= ck + rev_keys(g.mask));
        assert(keys_up(group_press_events(g, true)) =~= g.mask + ck);
    } else {
        lemma_keys_concat(kd, ku);
        lemma_keys_concat(kd + ku, md);
        lemma_keys_concat(mu, kd + ku + md);
        assert(keys_down(group_press_events(g, true)) =~= g.keys + rev_keys(g.mask));
        assert(keys_up(group_press_events(g, true)) =~= g.mask + rev_keys(g.keys));
        lemma_keys_concat(mu, kd);
        lemma_keys_concat(ku, md);
        lemma_keys_concat(mu + kd, ku + md);
        assert(group_press_events(g, false) + group_release_events(g) == (mu + kd) + (ku + md));
        assert(keys_down((mu + kd) + (ku + md)) =~= g.keys + rev_keys(g.mask));
        assert(keys_up((mu + kd) + (ku + md)) =~= g.mask + rev_keys(g.keys));
    }
}

/// Whether a layer in status `st` waits for key `c` to go up.
pub open spec fn waits_on(st: LayerStatus, c: KeyCoords) -> bool {
    match st {
        LayerStatus::LayerActiveUntilKeyRelease(w) => w == c,
        LayerStatus::LayerActiveUntilKeyReleaseTap(w) => w == c,
        LayerStatus::LayerHoldAndTapToL(w, _, _) => w == c,
        LayerStatus::LayerHoldAndTapKey(w, _, _) => w == c,
        _ => false,
    }
}

/// No layer waits for key `c` to go up.
pub open spec fn no_waits(stack: Seq<LayerStackEntry>, c: KeyCoords) -> bool {
    forall|j: int| 0 <= j < stack.len() ==> !waits_on(#[trigger] stack[j].status, c)
}

/// `s2` differs from `s` at most by layer statuses, active keys and key
/// events emitted for other keys than `c`.
pub open spec fn quiet(s: SwitcherView, s2: SwitcherView, c: KeyCoords) -> bool {
    &&& tagged(s2)
    &&& key_log(s2, c) == key_log(s, c)
    &&& s2.presses == s.presses
    &&& s2.stack.len() == s.stack.len()
}

/// Each status of `s2` is the one of `s`, or `st` at index `idx`.
pub open spec fn statuses_kept_but(s: SwitcherView, s2: SwitcherView, idx: int, sts: Set<LayerStatus>) -> bool {
    forall|j: int|
        0 <= j < s.stack.len() ==> #[trigger] s2.stack[j].status == s.stack[j].status || (j == idx
            && sts.contains(s2.stack[j].status))
}

pub(crate) proof fn lemma_emit_layer_key(s: SwitcherView, e: Seq<(Keycode, bool)>, c: KeyCoords)
    requires
        tagged(s),
        c != spec_layer_key(),
    ensures
        quiet(s, emit(s, e, spec_layer_key()), c),
        emit(s, e, spec_layer_key()).stack == s.stack,
{
    lemma_key_log_emit(s, e, spec_layer_key(), c);
    assert(key_log(s, c) + Seq::<(Keycode, bool)>::empty() =~= key_log(s, c));
}

pub(crate) proof fn lemma_on_activation(layers: Seq<Layer>, s: SwitcherView, idx: LayerId, c: KeyCoords)
    requires
        tagged(s),
        c != spec_layer_key(),
        idx < s.stack.len(),
    ensures
        quiet(s, on_activation(layers, s, idx), c),
        forall|j: int| 0 <= j < s.stack.len() ==> #[trigger] on_activation(layers, s, idx).stack[j].status
            == s.stack[j].status,
{
    lemma_emit_layer_key(s, key_events(layers[idx as int].on_active_keys@, true), c);
}

pub(crate) proof fn lemma_on_deactivation(layers: Seq<Layer>, s: SwitcherView, idx: LayerId, c: KeyCoords)
    requires
        tagged(s),
        c != spec_layer_key(),
        idx < s.stack.len(),
    ensures
        quiet(s, on_deactivation(layers, s, idx), c),
        forall|j: int| 0 <= j < s.stack.len() ==> #[trigger] on_deactivation(layers, s, idx).stack[j].status
            == s.stack[j].status,
{
    lemma_emit_layer_key(s, key_events(layers[idx as int].on_active_keys@, false), c);
}

pub(crate) proof fn lemma_deactivate(layers: Seq<Layer>, s: SwitcherView, idx: LayerId, c: KeyCoords)
    requires
        tagged(s),
        c != spec_layer_key(),
    ensures
        quiet(s, deactivate(layers, s, idx), c),
        statuses_kept_but(s, deactivate(layers, s, idx), idx as int, set![LayerStatus::LayerPassthrough]),
        idx != 0 && idx < s.stack.len() && s.stack[idx as int].status != LayerStatus::LayerDisabled
            && s.stack[idx as int].status != LayerStatus::LayerPassthrough ==> deactivate(
            layers,
            s,
            idx,
        ).stack[idx as int].status == LayerStatus::LayerPassthrough,
{
    if !(idx == 0 || idx >= s.stack.len() || !(s.stack[idx as int].status != LayerStatus::LayerDisabled && s.stack[idx as int].status != LayerStatus::LayerPassthrough)) {
        let s1 = set_status(s, idx, LayerStatus::LayerPassthrough);
        lemma_on_deactivation(layers, s1, idx, c);
    }
}

pub(crate) proof fn lemma_disable(layers: Seq<Layer>, s: SwitcherView, idx: LayerId, c: KeyCoords)
    requires
        tagged(s),
        c != spec_layer_key(),
    ensures
        quiet(s, disable(layers, s, idx), c),
        statuses_kept_but(
            s,
            disable(layers, s, idx),
            idx as int,
            set![LayerStatus::LayerDisabled],
        ),
{
    lemma_deactivate(layers, s, idx, c);
}

pub(crate) proof fn lemma_activate_as(layers: Seq<Layer>, s: SwitcherView, idx: LayerId, st: LayerStatus, c: KeyCoords)
    requires
        tagged(s),
        c != spec_layer_key(),
    ensures
        quiet(s, activate_as(layers, s, idx, st), c),
        statuses_kept_but(s, activate_as(layers, s, idx, st), idx as int, set![st]),
{
    if idx < s.stack.len() && s.stack[idx as int].status == LayerStatus::LayerPassthrough {
        lemma_on_activation(layers, set_status(s, idx, st), idx, c);
    }
}

pub(crate) proof fn lemma_activate(layers: Seq<Layer>, s: SwitcherView, idx: LayerId, c: KeyCoords)
    requires
        tagged(s),
        c != spec_layer_key(),
    ensures
        quiet(s, activate(layers, s, idx), c),
        statuses_kept_but(s, activate(layers, s, idx), idx as int, set![LayerStatus::LayerActive]),
{
    if idx < s.stack.len() && s.stack[idx as int].status == LayerStatus::LayerPassthrough {
        lemma_on_activation(layers, set_status(s, idx, LayerStatus::LayerActive), idx, c);
    }
}

pub(crate) proof fn lemma_deactivate_others(layers: Seq<Layer>, s: SwitcherView, keep: LayerId, i: int, c: KeyCoords)
    requires
        tagged(s),
        c != spec_layer_key(),
        layers.len() <= usize::MAX,
    ensures
        quiet(s, deactivate_others(layers, s, keep, i), c),
        forall|j: int|
            0 <= j < s.stack.len() ==> #[trigger] deactivate_others(layers, s, keep, i).stack[j].status
                == s.stack[j].status || deactivate_others(layers, s, keep, i).stack[j].status
                == LayerStatus::LayerPassthrough,
    decreases layers.len() - i,
{
    if 0 <= i < layers.len() {
        let s1 = if i != keep {
            deactivate(layers, s, i as LayerId)
        } else {
            s
        };
        if i != keep {
            lemma_deactivate(layers, s, i as LayerId, c);
        }
        lemma_deactivate_others(layers, s1, keep, i + 1, c);
    }
}

pub(crate) proof fn lemma_move_to(layers: Seq<Layer>, s: SwitcherView, idx: LayerId, c: KeyCoords)
    requires
        tagged(s),
        c != spec_layer_key(),
        layers.len() <= usize::MAX,
    ensures
        quiet(s, move_to(layers, s, idx), c),
        no_waits(s.stack, c) ==> no_waits(move_to(layers, s, idx).stack, c),
{
    if !(idx >= s.stack.len() || s.stack[idx as int].status == LayerStatus::LayerDisabled) {
        let s1 = deactivate_others(layers, s, idx, 1);
        lemma_deactivate_others(layers, s, idx, 1, c);
        lemma_activate(layers, s1, idx, c);
        let r = move_to(layers, s, idx);
        assert forall|j: int| 0 <= j < r.stack.len() && no_waits(s.stack, c) implies !waits_on(#[trigger] r.stack[j].status, c) by {
            assert(r.stack[j].status == s1.stack[j].status || r.stack[j].status == LayerStatus::LayerActive);
            assert(s1.stack[j].status == s.stack[j].status || s1.stack[j].status == LayerStatus::LayerPassthrough);
        }
    }
}

/// Retiring tap layers only deactivates layers that wait for any key press.
pub(crate) proof fn lemma_retire_taps(layers: Seq<Layer>, s: SwitcherView, i: int, c: KeyCoords)
    requires
        tagged(s),
        c != spec_layer_key(),
        layers.len() <= usize::MAX,
    ensures
        quiet(s, retire_taps(layers, s, i), c),
        forall|j: int|
            0 <= j < s.stack.len() ==> #[trigger] retire_taps(layers, s, i).stack[j].status
                == s.stack[j].status || (s.stack[j].status == LayerStatus::LayerActiveUntilAnyKeyPress
                && retire_taps(layers, s, i).stack[j].status == LayerStatus::LayerPassthrough),
    decreases layers.len() - i,
{
    if 0 <= i < layers.len() {
        let s1 = if i < s.stack.len() && s.stack[i].status == LayerStatus::LayerActiveUntilAnyKeyPress {
            deactivate(layers, s, i as LayerId)
        } else {
            s
        };
        if i < s.stack.len() && s.stack[i].status == LayerStatus::LayerActiveUntilAnyKeyPress {
            lemma_deactivate(layers, s, i as LayerId, c);
        }
        lemma_retire_taps(layers, s1, i + 1, c);
    }
}

pub(crate) proof fn lemma_before_after(layers: Seq<Layer>, s: SwitcherView, l: LayerId, c: KeyCoords)
    requires
        tagged(s),
        c != spec_layer_key(),
    ensures
        quiet(s, before_key_press(layers, s, l), c),
        before_key_press(layers, s, l).stack.len() == s.stack.len(),
        forall|j: int| 0 <= j < s.stack.len() ==> #[trigger] before_key_press(layers, s, l).stack[j].status
            == s.stack[j].status,
        quiet(s, after_key_release(layers, s, l), c),
        forall|j: int| 0 <= j < s.stack.len() ==> #[trigger] after_key_release(layers, s, l).stack[j].status
            == s.stack[j].status,
{
    if l < layers.len() && l < s.stack.len() {
        lemma_emit_layer_key(s, key_events(rev_keys(layers[l as int].on_active_keys@), false), c);
        lemma_emit_layer_key(s, key_events(layers[l as int].on_active_keys@, true), c);
    }
}

/// What a key group press adds to the key log of its own key.
pub(crate) proof fn lemma_keygroup_press(
    layers: Seq<Layer>,
    s: SwitcherView,
    g: KeyGroupView,
    c: KeyCoords,
    src: LayerId,
    t: u64,
    force_click: bool,
)
    requires
        tagged(s),
        c != spec_layer_key(),
    ensures
        ({
            let r = keygroup_press(layers, s, g, c, src, t, force_click);
            &&& tagged(r)
            &&& key_log(r, c) == key_log(s, c) + group_press_events(g, force_click)
            &&& r.stack.len() == s.stack.len()
            &&& forall|j: int| 0 <= j < s.stack.len() ==> #[trigger] r.stack[j].status == s.stack[j].status
            &&& (g.sequential || force_click) ==> r.presses == s.presses
        }),
{
    let s0 = before_key_press(layers, s, src);
    lemma_before_after(layers, s, src, c);
    let mu = key_events(g.mask, false);
    let s1 = emit(s0, mu, c);
    lemma_key_log_emit(s0, mu, c, c);
    if g.sequential {
        let rest = click_events(g.keys) + key_events(rev_keys(g.mask), true);
        let s2 = emit(s1, rest, c);
        lemma_key_log_emit(s1, rest, c, c);
        lemma_before_after(layers, s2, src, c);
        assert(key_log(s, c) + mu + rest =~= key_log(s, c) + (mu + rest));
    } else if force_click {
        let rest = key_events(g.keys, true) + key_events(rev_keys(g.keys), false) + key_events(
            rev_keys(g.mask),
            true,
        );
        let s2 = emit(s1, rest, c);
        lemma_key_log_emit(s1, rest, c, c);
        lemma_before_after(layers, s2, src, c);
        assert(key_log(s, c) + mu + rest =~= key_log(s, c) + (mu + rest));
    } else {
        let kd = key_events(g.keys, true);
        lemma_key_log_emit(s1, kd, c, c);
        assert(key_log(s, c) + mu + kd =~= key_log(s, c) + (mu + kd));
    }
}

/// What releasing a recorded chord adds to the key log of its own key.
pub(crate) proof fn lemma_keygroup_release(
    layers: Seq<Layer>,
    s: SwitcherView,
    g: KeyGroupView,
    c: KeyCoords,
    src: LayerId,
)
    requires
        tagged(s),
        c != spec_layer_key(),
        !g.sequential,
    ensures
        ({
            let r = keygroup_release(layers, s, g, c, src);
            &&& tagged(r)
            &&& key_log(r, c) == key_log(s, c) + group_release_events(g)
            &&& r.stack.len() == s.stack.len()
            &&& r.presses == s.presses
            &&& forall|j: int| 0 <= j < s.stack.len() ==> #[trigger] r.stack[j].status == s.stack[j].status
        }),
{
    let s1 = emit(s, group_release_events(g), c);
    lemma_key_log_emit(s, group_release_events(g), c, c);
    lemma_before_after(layers, s1, src, c);
}

/// A release of `c` leaves a layer whose status does not wait for `c` alone.
pub(crate) proof fn lemma_release_layers_idle(layers: Seq<Layer>, s: SwitcherView, c: KeyCoords, t: u64, i: int)
    requires
        0 <= i,
        layers.len() <= usize::MAX,
        forall|j: int| i <= j < s.stack.len() ==> !waits_on(#[trigger] s.stack[j].status, c),
    ensures
        release_layers(layers, s, c, t, i) == s,
    decreases layers.len() - i,
{
    if i < layers.len() {
        if i < s.stack.len() {
            assert(!waits_on(s.stack[i].status, c));
            assert(release_layer(layers, s, c, t, i as LayerId) == s);
        }
        lemma_release_layers_idle(layers, s, c, t, i + 1);
    }
}

pub(crate) proof fn lemma_release_layers_skip(layers: Seq<Layer>, s: SwitcherView, c: KeyCoords, t: u64, i: int, w: int)
    requires
        0 <= i <= w,
        layers.len() <= usize::MAX,
        forall|j: int| i <= j < w && j < s.stack.len() ==> !waits_on(#[trigger] s.stack[j].status, c),
    ensures
        release_layers(layers, s, c, t, i) == release_layers(layers, s, c, t, w) || i >= layers.len(),
    decreases w - i,
{
    if i < w && i < layers.len() {
        if i < s.stack.len() {
            assert(!waits_on(s.stack[i].status, c));
            assert(release_layer(layers, s, c, t, i as LayerId) == s);
        }
        lemma_release_layers_skip(layers, s, c, t, i + 1, w);
        if i + 1 >= layers.len() {
            assert(release_layers(layers, s, c, t, i + 1) == s);
            assert(release_layers(layers, s, c, t, w) == s);
        }
    }
}

/// What the release of `c` adds to its key log through a layer that waits
/// for it.
pub open spec fn release_tap_events(layers: Seq<Layer>, st: LayerStatus, c: KeyCoords, t: u64) -> Seq<
    (Keycode, bool),
> {
    match st {
        LayerStatus::LayerHoldAndTapKey(w, t0, l) => if w == c && elapsed(t, t0) < HOLD_THRESHOLD_MS
            && l < layers.len() {
            match layers[l as int].spec_key_event(w) {
                KeymapEvent::LhtK(_, k) => group_press_events(k@, true),
                _ => seq![],
            }
        } else {
            seq![]
        },
        _ => seq![],
    }
}

pub(crate) proof fn lemma_release_waiting_layer(layers: Seq<Layer>, s: SwitcherView, c: KeyCoords, t: u64, w: LayerId)
    requires
        tagged(s),
        c != spec_layer_key(),
        layers.len() <= usize::MAX,
        0 < w < s.stack.len(),
        forall|j: int| 0 <= j < s.stack.len() && j != w ==> !waits_on(#[trigger] s.stack[j].status, c),
    ensures
        ({
            let r = release_layer(layers, s, c, t, w);
            &&& tagged(r)
            &&& key_log(r, c) == key_log(s, c) + release_tap_events(layers, s.stack[w as int].status, c, t)
            &&& r.presses == s.presses
            &&& r.stack.len() == s.stack.len()
            &&& no_waits(r.stack, c)
        }),
{
    let st = s.stack[w as int].status;
    let r = release_layer(layers, s, c, t, w);
    let e: Seq<(Keycode, bool)> = seq![];
    assert(key_log(s, c) + e =~= key_log(s, c));
    match st {
        LayerStatus::LayerActiveUntilKeyRelease(wc) => {
            if wc == c {
                lemma_deactivate(layers, s, w, c);
            }
        },
        LayerStatus::LayerActiveUntilKeyReleaseTap(wc) => {
        },
        LayerStatus::LayerHoldAndTapKey(wc, t0, l) => {
            if wc == c {
                lemma_deactivate(layers, s, w, c);
                let s1 = deactivate(layers, s, w);
                if elapsed(t, t0) < HOLD_THRESHOLD_MS && l < layers.len() {
                    match layers[l as int].spec_key_event(wc) {
                        KeymapEvent::LhtK(_, k) => {
                            lemma_keygroup_press(layers, s1, k@, c, l, t, true);
                        },
                        _ => {},
                    }
                }
            }
        },
        LayerStatus::LayerHoldAndTapToL(wc, t0, next) => {
            if wc == c {
                lemma_deactivate(layers, s, w, c);
                let s1 = deactivate(layers, s, w);
                if elapsed(t, t0) < HOLD_THRESHOLD_MS {
                    lemma_activate_as(layers, s1, next, LayerStatus::LayerActiveUntilAnyKeyPress, c);
                    let r2 = activate_as(layers, s1, next, LayerStatus::LayerActiveUntilAnyKeyPress);
                    assert forall|j: int| 0 <= j < r2.stack.len() implies !waits_on(#[trigger] r2.stack[j].status, c) by {
                        assert(r2.stack[j].status == s1.stack[j].status || r2.stack[j].status == LayerStatus::LayerActiveUntilAnyKeyPress);
                        assert(s1.stack[j].status == s.stack[j].status || s1.stack[j].status == LayerStatus::LayerPassthrough);
                    }
                }
            }
        },
        _ => {},
    }
    assert forall|j: int| 0 <= j < r.stack.len() implies !waits_on(#[trigger] r.stack[j].status, c) by {
        if j != w {
            assert(!waits_on(s.stack[j].status, c));
        }
    }
}

/// A record pushed for a key that had none is the one found for it.
pub(crate) proof fn lemma_find_pushed(ps: Seq<PressView>, p: PressView, i: int)
    requires
        0 <= i <= ps.len(),
        forall|j: int| 0 <= j < ps.len() ==> (#[trigger] ps[j]).coords != p.coords,
    ensures
        find_press_from(ps.push(p), p.coords, i) == Some(ps.len() as int),
    decreases ps.len() - i,
{
    if i < ps.len() {
        assert(ps.push(p)[i] == ps[i]);
        lemma_find_pushed(ps, p, i + 1);
    }
}

/// The key groups that a press and a release of `c` can fire all mirror.
pub open spec fn fired_groups_mirror(layers: Seq<Layer>, s: SwitcherView, c: KeyCoords) -> bool {
    let (src, ev) = resolve(layers, s.stack, c);
    match ev {
        Some(KeymapEvent::Kg(g)) => group_mirrors(g@),
        Some(KeymapEvent::Klong(g, _)) => group_mirrors(g@),
        Some(KeymapEvent::Khl(g, _)) => group_mirrors(g@),
        Some(KeymapEvent::Khtl(g, _)) => group_mirrors(g@),
        Some(KeymapEvent::LhtK(_, _)) => src < layers.len() ==> match layers[src as int].spec_key_event(c) {
            KeymapEvent::LhtK(_, g) => group_mirrors(g@),
            _ => true,
        },
        _ => true,
    }
}

pub(crate) proof fn conclude(a: Seq<(Keycode, bool)>, b: Seq<(Keycode, bool)>, m: Seq<(Keycode, bool)>)
    requires
        b == a + m,
        mirrored(m),
    ensures
        b == a + b.skip(a.len() as int),
        mirrored(b.skip(a.len() as int)),
{
    assert(b.skip(a.len() as int) =~= m);
}

/// The release of `c` when no layer waits for it and no record is kept for it.
pub(crate) proof fn lemma_release_idle(layers: Seq<Layer>, p: SwitcherView, c: KeyCoords, t: u64)
    requires
        layers.len() <= usize::MAX,
        no_waits(p.stack, c),
        find_press(p.presses, c).is_none(),
    ensures
        release_step(layers, p, c, t) == p,
{
    lemma_release_layers_idle(layers, p, c, t, 0);
}

/// The release of `c` when only layer `w` waits for it and no record is kept
/// for it.
pub(crate) proof fn lemma_release_one_waiting(layers: Seq<Layer>, p: SwitcherView, c: KeyCoords, t: u64, w: LayerId)
    requires
        tagged(p),
        c != spec_layer_key(),
        layers.len() <= usize::MAX,
        p.stack.len() == layers.len(),
        0 < w < p.stack.len(),
        forall|j: int| 0 <= j < p.stack.len() && j != w ==> !waits_on(#[trigger] p.stack[j].status, c),
        find_press(p.presses, c).is_none(),
    ensures
        release_step(layers, p, c, t) == release_layer(layers, p, c, t, w),
{
    lemma_release_layers_skip(layers, p, c, t, 0, w as int);
    let r = release_layer(layers, p, c, t, w);
    lemma_release_waiting_layer(layers, p, c, t, w);
    lemma_release_layers_idle(layers, r, c, t, w + 1);
    assert(release_layers(layers, p, c, t, w as int) == release_layers(layers, r, c, t, w + 1));
}

/// The release of `c` when no layer waits for it and the last record, the
/// only one for `c`, is `rec`.
pub(crate) proof fn lemma_release_recorded(
    layers: Seq<Layer>,
    q: Seq<PressView>,
    p: SwitcherView,
    rec: PressView,
    c: KeyCoords,
    t: u64,
)
    requires
        layers.len() <= usize::MAX,
        no_waits(p.stack, c),
        find_press(q, c).is_none(),
        rec.coords == c,
        p.presses == q.push(rec),
    ensures
        ({
            let s2 = remove_press(p, q.len() as int);
            release_step(layers, p, c, t) == after_key_release(
                layers,
                if rec.mode == KeyReleaseMode::ForceClick {
                    keygroup_press(layers, s2, rec.group, c, rec.layer, t, true)
                } else {
                    keygroup_release(layers, s2, rec.group, c, rec.layer)
                },
                rec.layer,
            )
        }),
{
    lemma_release_layers_idle(layers, p, c, t, 0);
    lemma_find_press_from(q, c, 0);
    lemma_find_pushed(q, rec, 0);
    assert(p.presses[q.len() as int] == rec);
}

pub(crate) proof fn lemma_retire_keeps(layers: Seq<Layer>, s1: SwitcherView, c: KeyCoords)
    requires
        tagged(s1),
        c != spec_layer_key(),
        layers.len() <= usize::MAX,
    ensures
        quiet(s1, retire_taps(layers, s1, 0), c),
        no_waits(s1.stack, c) ==> no_waits(retire_taps(layers, s1, 0).stack, c),
        forall|j: int|
            0 <= j < s1.stack.len() && waits_on(s1.stack[j].status, c) ==> #[trigger] retire_taps(
                layers,
                s1,
                0,
            ).stack[j].status == s1.stack[j].status,
        forall|j: int|
            0 <= j < s1.stack.len() && !waits_on(s1.stack[j].status, c) ==> !waits_on(
                #[trigger] retire_taps(layers, s1, 0).stack[j].status,
                c,
            ),
{
    lemma_retire_taps(layers, s1, 0, c);
    let p = retire_taps(layers, s1, 0);
    assert forall|j: int| 0 <= j < s1.stack.len() && !waits_on(s1.stack[j].status, c) implies !waits_on(
        #[trigger] p.stack[j].status,
        c,
    ) by {
        assert(p.stack[j].status == s1.stack[j].status || p.stack[j].status == LayerStatus::LayerPassthrough);
    }
    if no_waits(s1.stack, c) {
        assert forall|j: int| 0 <= j < p.stack.len() implies !waits_on(#[trigger] p.stack[j].status, c) by {
            assert(!waits_on(s1.stack[j].status, c));
        }
    }
}

pub(crate) proof fn lemma_empty_mirrored()
    ensures
        mirrored(Seq::<(Keycode, bool)>::empty()),
{
    assert(rev_keys(Seq::<Keycode>::empty()) =~= Seq::<Keycode>::empty());
}

/// A press that changed only layers, with nothing left waiting for `c`, and
/// its release emit nothing for `c`.
pub(crate) proof fn lemma_quiet_press(layers: Seq<Layer>, s: SwitcherView, s1: SwitcherView, c: KeyCoords, t2: u64)
    requires
        switcher_inv(layers, s),
        layers.len() <= usize::MAX,
        c != spec_layer_key(),
        find_press(s.presses, c).is_none(),
        quiet(s, s1, c),
        no_waits(s1.stack, c),
    ensures
        key_log(release_step(layers, retire_taps(layers, s1, 0), c, t2), c) == key_log(s, c),
{
    lemma_retire_keeps(layers, s1, c);
    lemma_release_idle(layers, retire_taps(layers, s1, 0), c, t2);
}

/// A press that made layer `w` wait for `c`, and its release: they emit for
/// `c` what the release through `w` does.
pub(crate) proof fn lemma_waiting_press(
    layers: Seq<Layer>,
    s: SwitcherView,
    s1: SwitcherView,
    c: KeyCoords,
    t2: u64,
    w: LayerId,
)
    requires
        switcher_inv(layers, s),
        layers.len() <= usize::MAX,
        c != spec_layer_key(),
        find_press(s.presses, c).is_none(),
        quiet(s, s1, c),
        0 < w < s1.stack.len(),
        waits_on(s1.stack[w as int].status, c),
        forall|j: int| 0 <= j < s1.stack.len() && j != w ==> !waits_on(#[trigger] s1.stack[j].status, c),
    ensures
        key_log(release_step(layers, retire_taps(layers, s1, 0), c, t2), c) == key_log(s, c)
            + release_tap_events(layers, s1.stack[w as int].status, c, t2),
{
    lemma_retire_keeps(layers, s1, c);
    let p = retire_taps(layers, s1, 0);
    assert(p.stack[w as int].status == s1.stack[w as int].status);
    assert forall|j: int| 0 <= j < p.stack.len() && j != w implies !waits_on(#[trigger] p.stack[j].status, c) by {
        assert(!waits_on(s1.stack[j].status, c));
    }
    lemma_release_one_waiting(layers, p, c, t2, w);
    lemma_release_waiting_layer(layers, p, c, t2, w);
}

/// Pressing and then releasing a key that is up emits for that key key-downs
/// in the reverse order of its key-ups, whatever the layers do, provided no
/// sequential group of two keys or more fires. (Such a group clicks its keys
/// in order, so its key-ups come in the order of its key-downs.) The key must
/// not be the tag of layer activation, whose key events come from every layer.
pub proof fn lemma_press_then_release_mirror(
    layers: Seq<Layer>,
    s: SwitcherView,
    c: KeyCoords,
    t1: u64,
    t2: u64,
)
    requires
        switcher_inv(layers, s),
        layers.len() <= usize::MAX,
        c != spec_layer_key(),
        find_press(s.presses, c).is_none(),
        no_waits(s.stack, c),
        fired_groups_mirror(layers, s, c),
    ensures
        ({
            let s2 = event_step(
                layers,
                event_step(layers, s, KeyStateChange::Pressed(c), t1),
                KeyStateChange::Released(c),
                t2,
            );
            let m = key_log(s2, c).skip(key_log(s, c).len() as int);
            key_log(s2, c) == key_log(s, c) + m && mirrored(m)
        }),
{
    let (src, ev) = resolve(layers, s.stack, c);
    let s1 = match ev {
        Some(a) => dispatch_press(layers, s, a, c, src, t1),
        None => s,
    };
    let p = retire_taps(layers, s1, 0);
    assert(press_step(layers, s, c, t1) == p);
    let s2 = release_step(layers, p, c, t2);
    let e = Seq::<(Keycode, bool)>::empty();
    assert(key_log(s, c) + e =~= key_log(s, c));
    lemma_empty_mirrored();
    match ev {
        None => {
            lemma_quiet_press(layers, s, s1, c, t2);
            conclude(key_log(s, c), key_log(s2, c), e);
        },
        Some(a) => match a {
            KeymapEvent::Kg(g) => {
                lemma_keygroup_press(layers, s, g@, c, src, t1, false);
                lemma_retire_keeps(layers, s1, c);
                lemma_group_events_mirror(g@);
                assert forall|j: int| 0 <= j < s1.stack.len() implies !waits_on(#[trigger] s1.stack[j].status, c) by {
                    assert(s1.stack[j].status == s.stack[j].status);
                }
                let mp = group_press_events(g@, false);
                if g@.sequential {
                    lemma_release_idle(layers, p, c, t2);
                    conclude(key_log(s, c), key_log(s2, c), mp);
                } else {
                    let rec = PressView { layer: src, coords: c, mode: KeyReleaseMode::Reverse, group: g@, time: t1 };
                    lemma_release_recorded(layers, s.presses, p, rec, c, t2);
                    let s3 = remove_press(p, s.presses.len() as int);
                    assert(key_log(s3, c) == key_log(p, c));
                    lemma_keygroup_release(layers, s3, g@, c, src);
                    let s4 = keygroup_release(layers, s3, g@, c, src);
                    lemma_before_after(layers, s4, src, c);
                    let mr = group_release_events(g@);
                    assert(key_log(s, c) + mp + mr =~= key_log(s, c) + (mp + mr));
                    conclude(key_log(s, c), key_log(s2, c), mp + mr);
                }
            },
            KeymapEvent::Klong(g, _) => {
                lemma_force_click_record(layers, s, g@, c, src, t1, t2);
                lemma_group_events_mirror(g@);
                conclude(key_log(s, c), key_log(s2, c), group_press_events(g@, true));
            },
            KeymapEvent::Khl(g, _) => {
                lemma_force_click_record(layers, s, g@, c, src, t1, t2);
                lemma_group_events_mirror(g@);
                conclude(key_log(s, c), key_log(s2, c), group_press_events(g@, true));
            },
            KeymapEvent::Khtl(g, _) => {
                lemma_force_click_record(layers, s, g@, c, src, t1, t2);
                lemma_group_events_mirror(g@);
                conclude(key_log(s, c), key_log(s2, c), group_press_events(g@, true));
            },
            KeymapEvent::Lmove(i) => {
                lemma_move_to(layers, s, i, c);
                lemma_quiet_press(layers, s, s1, c, t2);
                conclude(key_log(s, c), key_log(s2, c), e);
            },
            KeymapEvent::Lactivate(i) => {
                lemma_activate(layers, s, i, c);
                assert forall|j: int| 0 <= j < s1.stack.len() implies !waits_on(#[trigger] s1.stack[j].status, c) by {
                    assert(!waits_on(s.stack[j].status, c));
                }
                lemma_quiet_press(layers, s, s1, c, t2);
                conclude(key_log(s, c), key_log(s2, c), e);
            },
            KeymapEvent::Ldeactivate(i) => {
                lemma_deactivate(layers, s, i, c);
                assert forall|j: int| 0 <= j < s1.stack.len() implies !waits_on(#[trigger] s1.stack[j].status, c) by {
                    assert(!waits_on(s.stack[j].status, c));
                }
                lemma_quiet_press(layers, s, s1, c, t2);
                conclude(key_log(s, c), key_log(s2, c), e);
            },
            KeymapEvent::Ldisable(i) => {
                lemma_disable(layers, s, i, c);
                assert forall|j: int| 0 <= j < s1.stack.len() implies !waits_on(#[trigger] s1.stack[j].status, c) by {
                    assert(!waits_on(s.stack[j].status, c));
                }
                lemma_quiet_press(layers, s, s1, c, t2);
                conclude(key_log(s, c), key_log(s2, c), e);
            },
            KeymapEvent::Lhold(i) => {
                lemma_activation_waits(layers, s, i, LayerStatus::LayerActiveUntilKeyRelease(c), c, t2);
                conclude(key_log(s, c), key_log(s2, c), e);
            },
            KeymapEvent::Ltap(i) => {
                lemma_activation_waits(layers, s, i, LayerStatus::LayerActiveUntilKeyReleaseTap(c), c, t2);
                conclude(key_log(s, c), key_log(s2, c), e);
            },
            KeymapEvent::LhtL(i, j) => {
                lemma_activation_waits(layers, s, i, LayerStatus::LayerHoldAndTapToL(c, t1, j), c, t2);
                conclude(key_log(s, c), key_log(s2, c), e);
            },
            KeymapEvent::LhtK(i, _) => {
                let st = LayerStatus::LayerHoldAndTapKey(c, t1, src);
                lemma_activation_waits(layers, s, i, st, c, t2);
                if i < s.stack.len() && s.stack[i as int].status == LayerStatus::LayerPassthrough {
                    let mt = release_tap_events(layers, st, c, t2);
                    if elapsed(t2, t1) < HOLD_THRESHOLD_MS && src < layers.len() {
                        match layers[src as int].spec_key_event(c) {
                            KeymapEvent::LhtK(_, k) => {
                                lemma_group_events_mirror(k@);
                            },
                            _ => {},
                        }
                    }
                    conclude(key_log(s, c), key_log(s2, c), mt);
                } else {
                    conclude(key_log(s, c), key_log(s2, c), e);
                }
            },
            _ => {
                lemma_quiet_press(layers, s, s1, c, t2);
                conclude(key_log(s, c), key_log(s2, c), e);
            },
        },
    }
}

/// A deferred group recorded by the press of `c` is clicked at its release.
pub(crate) proof fn lemma_force_click_record(
    layers: Seq<Layer>,
    s: SwitcherView,
    g: KeyGroupView,
    c: KeyCoords,
    src: LayerId,
    t1: u64,
    t2: u64,
)
    requires
        switcher_inv(layers, s),
        layers.len() <= usize::MAX,
        c != spec_layer_key(),
        find_press(s.presses, c).is_none(),
        no_waits(s.stack, c),
    ensures
        ({
            let rec = PressView { layer: src, coords: c, mode: KeyReleaseMode::ForceClick, group: g, time: t1 };
            let p = retire_taps(layers, push_press(s, rec), 0);
            key_log(release_step(layers, p, c, t2), c) == key_log(s, c) + group_press_events(g, true)
        }),
{
    let rec = PressView { layer: src, coords: c, mode: KeyReleaseMode::ForceClick, group: g, time: t1 };
    let s1 = push_press(s, rec);
    assert(key_log(s1, c) == key_log(s, c));
    lemma_retire_keeps(layers, s1, c);
    let p = retire_taps(layers, s1, 0);
    lemma_release_recorded(layers, s.presses, p, rec, c, t2);
    let s3 = remove_press(p, s.presses.len() as int);
    assert(key_log(s3, c) == key_log(p, c));
    lemma_keygroup_press(layers, s3, g, c, src, t2, true);
    let s4 = keygroup_press(layers, s3, g, c, src, t2, true);
    lemma_before_after(layers, s4, src, c);
}

/// A press of `c` that activates layer `i` in a status waiting for `c`, and
/// its release.
pub(crate) proof fn lemma_activation_waits(
    layers: Seq<Layer>,
    s: SwitcherView,
    i: LayerId,
    st: LayerStatus,
    c: KeyCoords,
    t2: u64,
)
    requires
        switcher_inv(layers, s),
        layers.len() <= usize::MAX,
        c != spec_layer_key(),
        find_press(s.presses, c).is_none(),
        no_waits(s.stack, c),
        waits_on(st, c),
    ensures
        ({
            let s1 = activate_as(layers, s, i, st);
            let p = retire_taps(layers, s1, 0);
            key_log(release_step(layers, p, c, t2), c) == key_log(s, c) + if i < s.stack.len()
                && s.stack[i as int].status == LayerStatus::LayerPassthrough {
                release_tap_events(layers, st, c, t2)
            } else {
                seq![]
            }
        }),
{
    lemma_activate_as(layers, s, i, st, c);
    let s1 = activate_as(layers, s, i, st);
    if i < s.stack.len() && s.stack[i as int].status == LayerStatus::LayerPassthrough {
        assert(base_active(s));
        assert(i != 0);
        assert(s1.stack[i as int].status == st);
        assert forall|j: int| 0 <= j < s1.stack.len() && j != i implies !waits_on(#[trigger] s1.stack[j].status, c) by {
            assert(s1.stack[j].status == s.stack[j].status);
        }
        lemma_waiting_press(layers, s, s1, c, t2, i);
    } else {
        assert(s1 == s);
        lemma_quiet_press(layers, s, s1, c, t2);
        assert(key_log(s, c) + Seq::<(Keycode, bool)>::empty() =~= key_log(s, c));
    }
}

} // verus!
