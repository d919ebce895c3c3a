//! The change detector: turns successive snapshots of the buttons down into
//! press, release, click and long press events.
use vstd::prelude::*;

use crate::layout::model::{elapsed, elapsed_ms, HOLD_THRESHOLD_MS};
use crate::layout::types::Millis;
use crate::xppen_hid::XpPenButtons;

verus! {

/// A button kind that says whether it keeps a state.
pub trait HasState {
    spec fn spec_has_state(self) -> bool;

    /// True for a button that is held and released; false for one that only
    /// triggers (a rotary encoder step).
    fn has_state(self) -> (r: bool)
        ensures
            r == self.spec_has_state(),
    ;
}

/// A change of one button's state.
#[derive(Clone, Copy, Debug)]
pub enum KeyStateChange<T> {
    /// Key was pressed and is held down
    Pressed(T),
    /// Key was released
    Released(T),
    /// Key does not support state and was triggered
    Click(T),
    /// Key is still held down past the hold threshold. Sent again on every
    /// check while the key stays down.
    LongPress(T),
}

/// A tracked button: when it went down, and whether its long press was
/// reported already.
pub type HeldButton = (XpPenButtons, Millis, bool);

/// The state of a change detector.
pub ghost struct DetectorView {
    /// The stateful buttons down, each once
    pub state: Seq<HeldButton>,
    /// Events not yet taken, oldest first
    pub events: Seq<KeyStateChange<XpPenButtons>>,
}

/// Index of the entry for button `k`.
pub open spec fn find_held(state: Seq<HeldButton>, k: XpPenButtons) -> Option<int>
    decreases state.len(),
{
    if state.len() == 0 {
        None
    } else if state.last().0 == k {
        Some(state.len() - 1)
    } else {
        find_held(state.drop_last(), k)
    }
}

/// Whether a button held since `t0` is a long press at `t`.
pub open spec fn is_long(t: Millis, t0: Millis) -> bool {
    elapsed(t, t0) > HOLD_THRESHOLD_MS
}

/// Releases of the tracked stateful buttons missing from `input`, in
/// tracking order.
pub open spec fn released_events(state: Seq<HeldButton>, input: Seq<XpPenButtons>) -> Seq<
    KeyStateChange<XpPenButtons>,
>
    decreases state.len(),
{
    if state.len() == 0 {
        seq![]
    } else {
        let k = state.last().0;
        released_events(state.drop_last(), input) + if !input.contains(k)
            && k.spec_has_state() {
            seq![KeyStateChange::Released(k)]
        } else {
            seq![]
        }
    }
}

/// The event for button `k` of a snapshot, given the tracked buttons.
pub open spec fn input_event(state: Seq<HeldButton>, k: XpPenButtons, t: Millis) -> Seq<
    KeyStateChange<XpPenButtons>,
> {
    match find_held(state, k) {
        None => if k.spec_has_state() {
            seq![KeyStateChange::Pressed(k)]
        } else {
            seq![KeyStateChange::Click(k)]
        },
        Some(i) => if !k.spec_has_state() {
            seq![KeyStateChange::Click(k)]
        } else if is_long(t, state[i].1) {
            seq![KeyStateChange::LongPress(k)]
        } else {
            seq![]
        },
    }
}

/// The events for the buttons of a snapshot, in snapshot order.
pub open spec fn input_events(state: Seq<HeldButton>, input: Seq<XpPenButtons>, t: Millis) -> Seq<
    KeyStateChange<XpPenButtons>,
>
    decreases input.len(),
{
    if input.len() == 0 {
        seq![]
    } else {
        input_events(state, input.drop_last(), t) + input_event(state, input.last(), t)
    }
}

/// The tracked buttons still down, with the long press flag set where the
/// hold threshold has passed.
pub open spec fn kept_tracked(state: Seq<HeldButton>, input: Seq<XpPenButtons>, t: Millis) -> Seq<
    HeldButton,
>
    decreases state.len(),
{
    if state.len() == 0 {
        seq![]
    } else {
        let e = state.last();
        kept_tracked(state.drop_last(), input, t) + if input.contains(e.0) {
            seq![(e.0, e.1, e.2 || is_long(t, e.1))]
        } else {
            seq![]
        }
    }
}

/// The stateful buttons of a snapshot that were not tracked, pressed at `t`.
pub open spec fn new_tracked(state: Seq<HeldButton>, input: Seq<XpPenButtons>, t: Millis) -> Seq<
    HeldButton,
>
    decreases input.len(),
{
    if input.len() == 0 {
        seq![]
    } else {
        let k = input.last();
        new_tracked(state, input.drop_last(), t) + if find_held(state, k).is_none()
            && k.spec_has_state() {
            seq![(k, t, false)]
        } else {
            seq![]
        }
    }
}

/// Long press events of the tracked buttons past the threshold, and the
/// state with their flags set.
pub open spec fn tick_events(state: Seq<HeldButton>, t: Millis) -> Seq<KeyStateChange<XpPenButtons>>
    decreases state.len(),
{
    if state.len() == 0 {
        seq![]
    } else {
        tick_events(state.drop_last(), t) + if is_long(t, state.last().1) {
            seq![KeyStateChange::LongPress(state.last().0)]
        } else {
            seq![]
        }
    }
}

pub open spec fn tick_state(state: Seq<HeldButton>, t: Millis) -> Seq<HeldButton> {
    Seq::new(state.len(), |i: int| (state[i].0, state[i].1, state[i].2 || is_long(t, state[i].1)))
}

/// Each tracked button is stateful and tracked once.
pub open spec fn tracked_wf(state: Seq<HeldButton>) -> bool {
    &&& forall|i: int| 0 <= i < state.len() ==> (#[trigger] state[i]).0.spec_has_state()
    &&& forall|i: int, j: int| 0 <= i < j < state.len() ==> (#[trigger] state[i]).0 != (#[trigger] state[j]).0
}

/// Turns successive snapshots of the buttons down into press, release, click
/// and long press events.
pub struct ChangeDetector {
    /// button, time of press, long press reported
    state: Vec<HeldButton>,
    /// Computed events that were not yet consumed, oldest first
    events: Vec<KeyStateChange<XpPenButtons>>,
}

impl View for ChangeDetector {
    type V = DetectorView;

    closed spec fn view(&self) -> DetectorView {
        DetectorView { state: self.state@, events: self.events@ }
    }
}

impl ChangeDetector {
    pub open spec fn wf(&self) -> bool {
        tracked_wf(self@.state)
    }

    pub fn new() -> (r: Self)
        ensures
            r@.state == Seq::<HeldButton>::empty(),
            r@.events == Seq::<KeyStateChange<XpPenButtons>>::empty(),
            r.wf(),
    {
        ChangeDetector { state: Vec::new(), events: Vec::new() }
    }

    fn find_held(&self, k: XpPenButtons) -> (r: Option<usize>)
        ensures
            match find_held(self@.state, k) {
                None => r.is_none(),
                Some(i) => r == Some(i as usize) && 0 <= i < self.state.len(),
            },
    {
        let mut n: usize = self.state.len();
        assert(self@.state.take(n as int) =~= self@.state);
        while n > 0
            invariant
                n <= self.state.len(),
                find_held(self@.state, k) == find_held(self@.state.take(n as int), k),
            decreases n,
        {
            assert(self@.state.take(n as int).drop_last() =~= self@.state.take(n as int - 1));
            if self.state[n - 1].0 == k {
                return Some(n - 1);
            }
            n -= 1;
        }
        None
    }

    /// Time tick: a long press for every button held past the threshold.
    pub fn tick(&mut self, t: Millis)
        ensures
            final(self)@.events == old(self)@.events + tick_events(old(self)@.state, t),
            final(self)@.state == tick_state(old(self)@.state, t),
            old(self).wf() ==> final(self).wf(),
    {
        let ghost s0 = self@;
        let mut i: usize = 0;
        while i < self.state.len()
            invariant
                i <= self.state.len(),
                self.state.len() == s0.state.len(),
                self@.events == s0.events + tick_events(s0.state.take(i as int), t),
                forall|j: int|
                    0 <= j < s0.state.len() ==> #[trigger] self@.state[j] == if j < i {
                        tick_state(s0.state, t)[j]
                    } else {
                        s0.state[j]
                    },
            decreases self.state.len() - i,
        {
            let (k, press_t, long_p) = self.state[i];
            proof {
                let tk = s0.state.take(i as int + 1);
                assert(tk.drop_last() =~= s0.state.take(i as int));
                assert(tk.last() == s0.state[i as int]);
                assert(self@.state[i as int] == s0.state[i as int]);
            }
            if elapsed_ms(t, press_t) > HOLD_THRESHOLD_MS {
                self.events.push(KeyStateChange::LongPress(k));
                self.state.set(i, (k, press_t, true));
            }
            assert(self@.state[i as int] == tick_state(s0.state, t)[i as int]);
            i += 1;
            assert(self@.events =~= s0.events + tick_events(s0.state.take(i as int), t));
        }
        assert(s0.state.take(s0.state.len() as int) =~= s0.state);
        assert(self@.state =~= tick_state(s0.state, t));
    }

    /// Analyze a snapshot of the buttons down and queue the press, release,
    /// click and long press events it shows. Returns true when a new stateful
    /// press was recorded, so that a long press timer can be set up.
    pub fn analyze(&mut self, input: &Vec<XpPenButtons>, t: Millis) -> (r: bool)
        requires
            old(self).wf(),
            input@.no_duplicates(),
        ensures
            final(self)@.events == old(self)@.events + released_events(old(self)@.state, input@)
                + input_events(old(self)@.state, input@, t),
            final(self)@.state == kept_tracked(old(self)@.state, input@, t) + new_tracked(
                old(self)@.state,
                input@,
                t,
            ),
            r == (new_tracked(old(self)@.state, input@, t).len() > 0),
            final(self).wf(),
    {
        let ghost s0 = self@;
        // Released keys
        let mut i: usize = 0;
        while i < self.state.len()
            invariant
                i <= self.state.len(),
                self@.state == s0.state,
                self@.events == s0.events + released_events(s0.state.take(i as int), input@),
            decreases self.state.len() - i,
        {
            let k = self.state[i].0;
            proof {
                let tk = s0.state.take(i as int + 1);
                assert(tk.drop_last() =~= s0.state.take(i as int));
                assert(tk.last() == s0.state[i as int]);
            }
            if !contains_button(input, k) && k.has_state() {
                self.events.push(KeyStateChange::Released(k));
            }
            i += 1;
            assert(self@.events =~= s0.events + released_events(s0.state.take(i as int), input@));
        }
        assert(s0.state.take(s0.state.len() as int) =~= s0.state);
        let ghost e1 = self@.events;
        // Pressed, clicked and long pressed keys
        let mut added: Vec<HeldButton> = Vec::new();
        let mut j: usize = 0;
        while j < input.len()
            invariant
                j <= input.len(),
                self@.state == s0.state,
                tracked_wf(s0.state),
                input@.no_duplicates(),
                self@.events == e1 + input_events(s0.state, input@.take(j as int), t),
                added@ == new_tracked(s0.state, input@.take(j as int), t),
                forall|b: int| 0 <= b < added.len() ==> (#[trigger] added@[b]).0.spec_has_state(),
                forall|b: int| 0 <= b < added.len() ==> find_held(s0.state, (#[trigger] added@[b]).0).is_none(),
                forall|a: int, b: int| 0 <= a < b < added.len() ==> (#[trigger] added@[a]).0 != (#[trigger] added@[b]).0,
                forall|b: int, j2: int|
                    0 <= b < added.len() && j <= j2 < input.len() ==> (#[trigger] added@[b]).0
                        != #[trigger] input@[j2],
            decreases input.len() - j,
        {
            let k = input[j];
            proof {
                let tk = input@.take(j as int + 1);
                assert(tk.drop_last() =~= input@.take(j as int));
                assert(tk.last() == input@[j as int]);
            }
            let ghost added0 = added@;
            match self.find_held(k) {
                None => {
                    if k.has_state() {
                        self.events.push(KeyStateChange::Pressed(k));
                        added.push((k, t, false));
                    } else {
                        self.events.push(KeyStateChange::Click(k));
                    }
                },
                Some(idx) => {
                    if !k.has_state() {
                        self.events.push(KeyStateChange::Click(k));
                    } else if elapsed_ms(t, self.state[idx].1) > HOLD_THRESHOLD_MS {
                        self.events.push(KeyStateChange::LongPress(k));
                    }
                },
            }
            proof {
                assert forall|b: int, j2: int|
                    0 <= b < added.len() && j + 1 <= j2 < input.len() implies (#[trigger] added@[b]).0
                        != #[trigger] input@[j2] by {
                    if b < added0.len() {
                        assert(added0[b] == added@[b]);
                    } else {
                        assert(added@[b].0 == input@[j as int]);
                    }
                }
            }
            j += 1;
            assert(self@.events =~= e1 + input_events(s0.state, input@.take(j as int), t));
        }
        assert(input@.take(input.len() as int) =~= input@);
        // Keep the keys still down, then add the newly pressed ones
        let mut kept: Vec<HeldButton> = Vec::new();
        let mut i: usize = 0;
        while i < self.state.len()
            invariant
                i <= self.state.len(),
                self@.state == s0.state,
                tracked_wf(s0.state),
                kept@ == kept_tracked(s0.state.take(i as int), input@, t),
                forall|a: int| 0 <= a < kept.len() ==> (#[trigger] kept@[a]).0.spec_has_state(),
                forall|a: int| 0 <= a < kept.len() ==> find_held(s0.state, (#[trigger] kept@[a]).0).is_some(),
                forall|a: int, b: int| 0 <= a < b < kept.len() ==> (#[trigger] kept@[a]).0 != (#[trigger] kept@[b]).0,
                forall|a: int, i2: int|
                    0 <= a < kept.len() && i <= i2 < s0.state.len() ==> (#[trigger] kept@[a]).0
                        != (#[trigger] s0.state[i2]).0,
            decreases self.state.len() - i,
        {
            let (k, press_t, long_p) = self.state[i];
            proof {
                let tk = s0.state.take(i as int + 1);
                assert(tk.drop_last() =~= s0.state.take(i as int));
                assert(tk.last() == s0.state[i as int]);
                lemma_find_held_some(s0.state, i as int);
            }
            let ghost kept0 = kept@;
            if contains_button(input, k) {
                kept.push((k, press_t, long_p || elapsed_ms(t, press_t) > HOLD_THRESHOLD_MS));
            }
            proof {
                assert forall|a: int, i2: int|
                    0 <= a < kept.len() && i + 1 <= i2 < s0.state.len() implies (#[trigger] kept@[a]).0
                        != (#[trigger] s0.state[i2]).0 by {
                    if a < kept0.len() {
                        assert(kept0[a] == kept@[a]);
                    }
                }
            }
            i += 1;
            assert(kept@ =~= kept_tracked(s0.state.take(i as int), input@, t));
        }
        assert(s0.state.take(s0.state.len() as int) =~= s0.state);
        let new_presses = added.len() > 0;
        let ghost kept_v = kept@;
        let ghost added_v = added@;
        kept.append(&mut added);
        self.state = kept;
        proof {
            assert forall|a: int, b: int|
                0 <= a < kept_v.len() && 0 <= b < added_v.len() implies (#[trigger] kept_v[a]).0
                    != (#[trigger] added_v[b]).0 by {
                if kept_v[a].0 == added_v[b].0 {
                    assert(find_held(s0.state, kept_v[a].0).is_some());
                }
            }
            let st = self@.state;
            assert(st == kept_v + added_v);
            assert forall|a: int, b: int| 0 <= a < b < st.len() implies (#[trigger] st[a]).0
                != (#[trigger] st[b]).0 by {
                if b < kept_v.len() {
                    assert(st[a] == kept_v[a] && st[b] == kept_v[b]);
                } else if a < kept_v.len() {
                    assert(st[a] == kept_v[a] && st[b] == added_v[b - kept_v.len()]);
                } else {
                    assert(st[a] == added_v[a - kept_v.len()] && st[b] == added_v[b - kept_v.len()]);
                }
            }
            assert forall|a: int| 0 <= a < st.len() implies (#[trigger] st[a]).0.spec_has_state() by {
                if a < kept_v.len() {
                    assert(st[a] == kept_v[a]);
                } else {
                    assert(st[a] == added_v[a - kept_v.len()]);
                }
            }
        }
        new_presses
    }

    /// Take the next event, oldest first.
    pub fn next(&mut self) -> (r: Option<KeyStateChange<XpPenButtons>>)
        ensures
            old(self)@.events.len() == 0 ==> r.is_none() && final(self)@ == old(self)@,
            old(self)@.events.len() > 0 ==> r == Some(old(self)@.events[0]) && final(self)@
                == (DetectorView { events: old(self)@.events.drop_first(), ..old(self)@ }),
    {
        if self.events.len() == 0 {
            None
        } else {
            let ev = self.events.remove(0);
            assert(self@.events =~= old(self)@.events.drop_first());
            Some(ev)
        }
    }

    /// Is any button down?
    pub fn has_pressed(&self) -> (r: bool)
        ensures
            r == (self@.state.len() > 0),
    {
        self.state.len() > 0
    }

    /// Is any button down whose long press was not reported yet?
    pub fn has_short_pressed(&self) -> (r: bool)
        ensures
            r == exists|i: int| 0 <= i < self@.state.len() && !(#[trigger] self@.state[i]).2,
    {
        let mut i: usize = 0;
        while i < self.state.len()
            invariant
                i <= self.state.len(),
                forall|j: int| 0 <= j < i ==> (#[trigger] self@.state[j]).2,
            decreases self.state.len() - i,
        {
            if !self.state[i].2 {
                assert(!self@.state[i as int].2);
                return true;
            }
            i += 1;
        }
        false
    }
}

/// An entry of the tracked buttons is found by its button.
proof fn lemma_find_held_some(state: Seq<HeldButton>, i: int)
    requires
        tracked_wf(state),
        0 <= i < state.len(),
    ensures
        find_held(state, state[i].0) == Some(i),
    decreases state.len(),
{
    if i < state.len() - 1 {
        let d = state.drop_last();
        assert(d[i] == state[i]);
        assert(tracked_wf(d)) by {
            assert forall|a: int, b: int| 0 <= a < b < d.len() implies (#[trigger] d[a]).0
                != (#[trigger] d[b]).0 by {
                assert(d[a] == state[a] && d[b] == state[b]);
            }
            assert forall|a: int| 0 <= a < d.len() implies (#[trigger] d[a]).0.spec_has_state() by {
                assert(d[a] == state[a]);
            }
        }
        assert(state.last() == state[state.len() - 1]);
        lemma_find_held_some(d, i);
    }
}

fn contains_button(v: &Vec<XpPenButtons>, k: XpPenButtons) -> (r: bool)
    ensures
        r == v@.contains(k),
{
    let mut i: usize = 0;
    while i < v.len()
        invariant
            i <= v.len(),
            forall|j: int| 0 <= j < i ==> v@[j] != k,
        decreases v.len() - i,
    {
        if v[i] == k {
            assert(v@[i as int] == k);
            return true;
        }
        i += 1;
    }
    false
}


} // verus!
