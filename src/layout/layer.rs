//! Layers: a keymap grid, a default action and the layer's settings.
use vstd::prelude::*;

use super::types::{KeyCoords, Keycode, Keymap, KeymapEvent, LayerId, LayerStatus, Millis};

verus! {

/// Every key code an action can emit.
pub open spec fn event_used_keys(ev: KeymapEvent) -> Seq<Keycode> {
    match ev {
        KeymapEvent::Kg(k) => k@.used_keys(),
        KeymapEvent::Klong(k_s, k_l) => k_s@.used_keys() + k_l@.used_keys(),
        KeymapEvent::Khtl(k, _) => k@.used_keys(),
        KeymapEvent::Khl(k, _) => k@.used_keys(),
        KeymapEvent::LhtK(_, k) => k@.used_keys(),
        _ => seq![],
    }
}

/// The used keys of a row of actions, cell by cell.
pub open spec fn row_used_keys(row: Seq<KeymapEvent>) -> Seq<Keycode>
    decreases row.len(),
{
    if row.len() == 0 {
        seq![]
    } else {
        row_used_keys(row.drop_last()) + event_used_keys(row.last())
    }
}

/// The used keys of a block, row by row.
pub open spec fn block_used_keys(block: Seq<Vec<KeymapEvent>>) -> Seq<Keycode>
    decreases block.len(),
{
    if block.len() == 0 {
        seq![]
    } else {
        block_used_keys(block.drop_last()) + row_used_keys(block.last()@)
    }
}

/// The used keys of a keymap, block by block.
pub open spec fn keymap_used_keys(km: Seq<Vec<Vec<KeymapEvent>>>) -> Seq<Keycode>
    decreases km.len(),
{
    if km.len() == 0 {
        seq![]
    } else {
        keymap_used_keys(km.drop_last()) + block_used_keys(km.last()@)
    }
}

/// Static configuration of one layer.
#[derive(Clone)]
pub struct Layer {
    /// Status the layer takes when the switcher is (re)started
    pub status_on_reset: LayerStatus,
    /// Where to look when the keymap says `Inh`
    pub inherit: Option<LayerId>,
    /// Keys held down while this layer is active
    pub on_active_keys: Vec<Keycode>,
    /// Are active keys released while a key of this layer is pressed?
    pub disable_active_on_press: bool,
    /// A layer switch when the timer expires
    pub on_timeout_layer: Option<LayerId>,
    /// Timeout to set up when the layer is entered
    pub timeout: Option<Millis>,
    /// Keymap of this layer
    pub keymap: Keymap,
    /// Action of every cell the keymap does not cover
    pub default_action: KeymapEvent,
}

impl Layer {
    /// The action at `coords`: the keymap cell, or the default action when
    /// the keymap has no such cell.
    pub open spec fn spec_key_event(&self, coords: KeyCoords) -> KeymapEvent {
        let b = coords.0 as int;
        let r = coords.1 as int;
        let c = coords.2 as int;
        if b < self.keymap@.len() && r < self.keymap@[b]@.len() && c
            < self.keymap@[b]@[r]@.len() {
            self.keymap@[b]@[r]@[c]
        } else {
            self.default_action
        }
    }

    pub fn get_key_event(&self, coords: KeyCoords) -> (r: &KeymapEvent)
        ensures
            *r == self.spec_key_event(coords),
    {
        let b = coords.0 as usize;
        let r = coords.1 as usize;
        let c = coords.2 as usize;
        if b < self.keymap.len() && r < self.keymap[b].len() && c < self.keymap[b][r].len() {
            &self.keymap[b][r][c]
        } else {
            &self.default_action
        }
    }

    /// All key codes the keymap can emit, cell by cell in grid order.
    pub fn get_used_keys(&self) -> (r: Vec<Keycode>)
        ensures
            r@ == keymap_used_keys(self.keymap@),
    {
        let mut keys: Vec<Keycode> = Vec::new();
        let mut bi: usize = 0;
        while bi < self.keymap.len()
            invariant
                bi <= self.keymap.len(),
                keys@ == keymap_used_keys(self.keymap@.take(bi as int)),
            decreases self.keymap.len() - bi,
        {
            let block = &self.keymap[bi];
            let ghost before_block = keys@;
            let mut ri: usize = 0;
            while ri < block.len()
                invariant
                    ri <= block.len(),
                    keys@ == before_block + block_used_keys(block@.take(ri as int)),
                decreases block.len() - ri,
            {
                let row = &block[ri];
                let ghost before_row = keys@;
                let mut ci: usize = 0;
                while ci < row.len()
                    invariant
                        ci <= row.len(),
                        keys@ == before_row + row_used_keys(row@.take(ci as int)),
                    decreases row.len() - ci,
                {
                    let mut ev_keys = event_get_used_keys(&row[ci]);
                    keys.append(&mut ev_keys);
                    proof {
                        let t = row@.take(ci as int + 1);
                        assert(t.drop_last() =~= row@.take(ci as int));
                        assert(t.last() == row@[ci as int]);
                    }
                    ci += 1;
                    assert(keys@ =~= before_row + row_used_keys(row@.take(ci as int)));
                }
                proof {
                    assert(row@.take(row.len() as int) =~= row@);
                    let t = block@.take(ri as int + 1);
                    assert(t.drop_last() =~= block@.take(ri as int));
                    assert(t.last() == block@[ri as int]);
                }
                ri += 1;
                assert(keys@ =~= before_block + block_used_keys(block@.take(ri as int)));
            }
            proof {
                assert(block@.take(block.len() as int) =~= block@);
                let t = self.keymap@.take(bi as int + 1);
                assert(t.drop_last() =~= self.keymap@.take(bi as int));
                assert(t.last() == self.keymap@[bi as int]);
            }
            bi += 1;
            assert(keys@ =~= keymap_used_keys(self.keymap@.take(bi as int)));
        }
        assert(self.keymap@.take(self.keymap.len() as int) =~= self.keymap@);
        keys
    }
}

/// Every key code one action can emit.
pub fn event_get_used_keys(ev: &KeymapEvent) -> (r: Vec<Keycode>)
    ensures
        r@ == event_used_keys(*ev),
{
    match ev {
        KeymapEvent::Kg(k) => k.get_used_keys(),
        KeymapEvent::Klong(k_s, k_l) => {
            let mut keys = k_s.get_used_keys();
            let mut long_keys = k_l.get_used_keys();
            keys.append(&mut long_keys);
            keys
        },
        KeymapEvent::Khtl(k, _) => k.get_used_keys(),
        KeymapEvent::Khl(k, _) => k.get_used_keys(),
        KeymapEvent::LhtK(_, k) => k.get_used_keys(),
        _ => Vec::new(),
    }
}

} // verus!
