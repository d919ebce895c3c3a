//! Key groups: the key codes one physical key fires, with their mask.
use vstd::prelude::*;

use super::types::{KeymapEvent, Keycode};

verus! {

/// What one key group is, as values.
pub ghost struct KeyGroupView {
    pub sequential: bool,
    pub keys: Seq<Keycode>,
    pub mask: Seq<Keycode>,
}

impl KeyGroupView {
    /// Every key code the group can emit: the payload, then the mask.
    pub open spec fn used_keys(self) -> Seq<Keycode> {
        self.keys + self.mask
    }
}

/// A plan of key codes to emit when one physical key fires.
#[derive(Debug)]
pub struct KeyGroup {
    /// Sequential (each key clicked in turn) or a chord (all held together)?
    pub sequential: bool,
    pub keys: Vec<Keycode>,
    /// Keys released before the payload fires and pressed again, in reverse
    /// order, after it.
    pub mask: Vec<Keycode>,
}

impl View for KeyGroup {
    type V = KeyGroupView;

    open spec fn view(&self) -> KeyGroupView {
        KeyGroupView { sequential: self.sequential, keys: self.keys@, mask: self.mask@ }
    }
}

/// A copy of a list of key codes.
pub fn copy_keycodes(v: &Vec<Keycode>) -> (r: Vec<Keycode>)
    ensures
        r@ == v@,
{
    let mut r: Vec<Keycode> = Vec::new();
    let mut i: usize = 0;
    while i < v.len()
        invariant
            i <= v.len(),
            r@ == v@.take(i as int),
        decreases v.len() - i,
    {
        r.push(v[i]);
        i += 1;
        assert(r@ =~= v@.take(i as int));
    }
    assert(v@.take(v.len() as int) =~= v@);
    r
}

impl Clone for KeyGroup {
    fn clone(&self) -> (r: Self)
        ensures
            r@ == self@,
    {
        KeyGroup {
            sequential: self.sequential,
            keys: copy_keycodes(&self.keys),
            mask: copy_keycodes(&self.mask),
        }
    }
}

impl KeyGroup {
    /// Every key code the group can emit: the payload, then the mask.
    pub fn get_used_keys(&self) -> (r: Vec<Keycode>)
        ensures
            r@ == self@.used_keys(),
    {
        let mut keys = copy_keycodes(&self.keys);
        let mut mask = copy_keycodes(&self.mask);
        keys.append(&mut mask);
        keys
    }

    /// The group with `ky` added at the end of its payload.
    pub fn k(self, ky: Keycode) -> (r: Self)
        ensures
            r@ == (KeyGroupView { keys: self@.keys.push(ky), ..self@ }),
    {
        let mut keys = self.keys;
        keys.push(ky);
        KeyGroup { sequential: self.sequential, keys, mask: self.mask }
    }

    /// The group with `ky` added at the end of its mask.
    pub fn m(self, ky: Keycode) -> (r: Self)
        ensures
            r@ == (KeyGroupView { mask: self@.mask.push(ky), ..self@ }),
    {
        let mut mask = self.mask;
        mask.push(ky);
        KeyGroup { sequential: self.sequential, keys: self.keys, mask }
    }

    /// The action that emits this group.
    pub fn p(self) -> (r: KeymapEvent)
        ensures
            r matches KeymapEvent::Kg(g) && g@ == self@,
    {
        KeymapEvent::Kg(self)
    }
}

/// An empty chord group.
#[allow(non_snake_case)]
pub fn G() -> (r: KeyGroup)
    ensures
        r@ == (KeyGroupView { sequential: false, keys: seq![], mask: seq![] }),
{
    KeyGroup { sequential: false, keys: Vec::new(), mask: Vec::new() }
}

/// An empty sequential group.
#[allow(non_snake_case)]
pub fn S() -> (r: KeyGroup)
    ensures
        r@ == (KeyGroupView { sequential: true, keys: seq![], mask: seq![] }),
{
    KeyGroup { sequential: true, keys: Vec::new(), mask: Vec::new() }
}

} // verus!
