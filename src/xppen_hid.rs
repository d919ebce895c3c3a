//! The buttons of the XP-Pen ACK05 keypad and the decoding of its input
//! reports (in key bit mode).
use vstd::prelude::*;

use crate::kbd_events::HasState;
use crate::layout::types::KeyCoords;

verus! {

/// USB product id of the keypad.
pub const PID: u16 = 0x0202;

/// USB vendor id of the keypad.
pub const VID: u16 = 0x28bd;

/// Report id byte of a key bit report.
pub const KEY_REPORT_TAG: u8 = 240;

/// Number of buttons, the rotary encoder's two directions included.
pub const BUTTON_COUNT: usize = 12;

#[derive(Clone, Copy, PartialEq, Eq, Structural, Debug, Hash)]
pub enum XpPenButtons {
    XpB01,
    XpB02,
    XpB03,
    XpB04,
    XpB05,
    XpB06,
    XpB07,
    XpB08,
    XpB09,
    XpB10,
    XpRoCW,
    XpRoCCW,
}

impl XpPenButtons {
    /// Position of the button in declaration order.
    pub open spec fn spec_index(self) -> nat {
        match self {
            XpPenButtons::XpB01 => 0,
            XpPenButtons::XpB02 => 1,
            XpPenButtons::XpB03 => 2,
            XpPenButtons::XpB04 => 3,
            XpPenButtons::XpB05 => 4,
            XpPenButtons::XpB06 => 5,
            XpPenButtons::XpB07 => 6,
            XpPenButtons::XpB08 => 7,
            XpPenButtons::XpB09 => 8,
            XpPenButtons::XpB10 => 9,
            XpPenButtons::XpRoCW => 10,
            XpPenButtons::XpRoCCW => 11,
        }
    }

    /// The button at position `i` in declaration order.
    pub open spec fn spec_from_index(i: nat) -> XpPenButtons {
        if i == 0 {
            XpPenButtons::XpB01
        } else if i == 1 {
            XpPenButtons::XpB02
        } else if i == 2 {
            XpPenButtons::XpB03
        } else if i == 3 {
            XpPenButtons::XpB04
        } else if i == 4 {
            XpPenButtons::XpB05
        } else if i == 5 {
            XpPenButtons::XpB06
        } else if i == 6 {
            XpPenButtons::XpB07
        } else if i == 7 {
            XpPenButtons::XpB08
        } else if i == 8 {
            XpPenButtons::XpB09
        } else if i == 9 {
            XpPenButtons::XpB10
        } else if i == 10 {
            XpPenButtons::XpRoCW
        } else {
            XpPenButtons::XpRoCCW
        }
    }

    pub fn index(self) -> (r: u8)
        ensures
            r as nat == self.spec_index(),
    {
        match self {
            XpPenButtons::XpB01 => 0,
            XpPenButtons::XpB02 => 1,
            XpPenButtons::XpB03 => 2,
            XpPenButtons::XpB04 => 3,
            XpPenButtons::XpB05 => 4,
            XpPenButtons::XpB06 => 5,
            XpPenButtons::XpB07 => 6,
            XpPenButtons::XpB08 => 7,
            XpPenButtons::XpB09 => 8,
            XpPenButtons::XpB10 => 9,
            XpPenButtons::XpRoCW => 10,
            XpPenButtons::XpRoCCW => 11,
        }
    }

    pub fn from_index(i: usize) -> (r: XpPenButtons)
        requires
            i < BUTTON_COUNT,
        ensures
            r == Self::spec_from_index(i as nat),
            r.spec_index() == i,
    {
        if i == 0 {
            XpPenButtons::XpB01
        } else if i == 1 {
            XpPenButtons::XpB02
        } else if i == 2 {
            XpPenButtons::XpB03
        } else if i == 3 {
            XpPenButtons::XpB04
        } else if i == 4 {
            XpPenButtons::XpB05
        } else if i == 5 {
            XpPenButtons::XpB06
        } else if i == 6 {
            XpPenButtons::XpB07
        } else if i == 7 {
            XpPenButtons::XpB08
        } else if i == 8 {
            XpPenButtons::XpB09
        } else if i == 9 {
            XpPenButtons::XpB10
        } else if i == 10 {
            XpPenButtons::XpRoCW
        } else {
            XpPenButtons::XpRoCCW
        }
    }

    /// Report byte and bit mask of the button in a key bit report.
    pub open spec fn spec_report_bit(self) -> (int, u8) {
        match self {
            XpPenButtons::XpB01 => (2, 0x01),
            XpPenButtons::XpB02 => (2, 0x02),
            XpPenButtons::XpB03 => (2, 0x04),
            XpPenButtons::XpB04 => (2, 0x08),
            XpPenButtons::XpB05 => (2, 0x10),
            XpPenButtons::XpB06 => (2, 0x20),
            XpPenButtons::XpB07 => (2, 0x40),
            XpPenButtons::XpB08 => (2, 0x80),
            XpPenButtons::XpB09 => (3, 0x01),
            XpPenButtons::XpB10 => (3, 0x02),
            XpPenButtons::XpRoCW => (7, 0x01),
            XpPenButtons::XpRoCCW => (7, 0x02),
        }
    }

    pub fn report_bit(self) -> (r: (usize, u8))
        ensures
            r.0 as int == self.spec_report_bit().0,
            r.1 == self.spec_report_bit().1,
    {
        match self {
            XpPenButtons::XpB01 => (2, 0x01),
            XpPenButtons::XpB02 => (2, 0x02),
            XpPenButtons::XpB03 => (2, 0x04),
            XpPenButtons::XpB04 => (2, 0x08),
            XpPenButtons::XpB05 => (2, 0x10),
            XpPenButtons::XpB06 => (2, 0x20),
            XpPenButtons::XpB07 => (2, 0x40),
            XpPenButtons::XpB08 => (2, 0x80),
            XpPenButtons::XpB09 => (3, 0x01),
            XpPenButtons::XpB10 => (3, 0x02),
            XpPenButtons::XpRoCW => (7, 0x01),
            XpPenButtons::XpRoCCW => (7, 0x02),
        }
    }

    /// The coordinate of the button: block 0, row 0, its index as column.
    pub fn coords(self) -> (r: KeyCoords)
        ensures
            r == KeyCoords(0, 0, self.spec_index() as u8),
    {
        KeyCoords(0, 0, self.index())
    }
}

impl From<XpPenButtons> for KeyCoords {
    fn from(b: XpPenButtons) -> (r: KeyCoords) {
        b.coords()
    }
}

impl vstd::std_specs::convert::FromSpecImpl<XpPenButtons> for KeyCoords {
    open spec fn obeys_from_spec() -> bool {
        true
    }

    open spec fn from_spec(b: XpPenButtons) -> KeyCoords {
        KeyCoords(0, 0, b.spec_index() as u8)
    }
}

impl HasState for XpPenButtons {
    /// The rotary encoder has no state, all the other buttons can be up or
    /// down. Stateless buttons click every time they appear in a report.
    open spec fn spec_has_state(self) -> bool {
        !(self == XpPenButtons::XpRoCCW || self == XpPenButtons::XpRoCW)
    }

    fn has_state(self) -> (r: bool) {
        !(self == XpPenButtons::XpRoCCW || self == XpPenButtons::XpRoCW)
    }
}

/// What one read from the keypad gave.
#[derive(Debug, Clone)]
pub enum XpPenResult {
    /// Nothing arrived in time
    Timeout,
    /// A report that is not a key bit report
    TryAgain,
    /// The buttons down, in index order
    Keys(Vec<XpPenButtons>),
}

/// Whether the key bit report `buf` shows button `b` down.
pub open spec fn report_has(buf: Seq<u8>, b: XpPenButtons) -> bool {
    buf[b.spec_report_bit().0] & b.spec_report_bit().1 != 0
}

/// The buttons among the first `n` (in index order) that report `buf` shows down.
pub open spec fn report_buttons(buf: Seq<u8>, n: nat) -> Seq<XpPenButtons>
    decreases n,
{
    if n == 0 {
        seq![]
    } else {
        let b = XpPenButtons::spec_from_index((n - 1) as nat);
        report_buttons(buf, (n - 1) as nat) + if report_has(buf, b) {
            seq![b]
        } else {
            seq![]
        }
    }
}

/// Decode a report of `n` bytes that was read into `buf`.
pub fn decode_report(buf: &[u8], n: usize) -> (r: XpPenResult)
    ensures
        n == 0 ==> r is Timeout,
        n > 0 && (buf@.len() < 8 || buf@[1] != KEY_REPORT_TAG) ==> r is TryAgain,
        n > 0 && buf@.len() >= 8 && buf@[1] == KEY_REPORT_TAG ==> (r matches XpPenResult::Keys(
            keys,
        ) && keys@ == report_buttons(buf@, BUTTON_COUNT as nat) && keys@.no_duplicates()),
{
    if n == 0 {
        return XpPenResult::Timeout;
    }
    if buf.len() < 8 || buf[1] != KEY_REPORT_TAG {
        return XpPenResult::TryAgain;
    }
    let mut state: Vec<XpPenButtons> = Vec::new();
    let mut i: usize = 0;
    while i < BUTTON_COUNT
        invariant
            i <= BUTTON_COUNT,
            buf@.len() >= 8,
            state@ == report_buttons(buf@, i as nat),
            state@.no_duplicates(),
            forall|j: int| 0 <= j < state.len() ==> (#[trigger] state@[j]).spec_index() < i,
        decreases BUTTON_COUNT - i,
    {
        let b = XpPenButtons::from_index(i);
        let (byte, mask) = b.report_bit();
        if buf[byte] & mask != 0 {
            state.push(b);
        }
        i += 1;
    }
    XpPenResult::Keys(state)
}

} // verus!
