//! The quick menu on the carousel: its rows and the values the arrows change.
use vstd::prelude::*;

verus! {

/// The menu's rows, top to bottom.
#[derive(Copy, Clone, PartialEq, Eq, Debug, Structural)]
pub enum QuickRow {
    FastForward,
    FastForwardSound,
    ColourCorrection,
    Rumble,
    DateTime,
    Wifi,
    FileTransfer,
    About,
}

/// How many rows the menu has.
pub const QUICK_ROWS: usize = 8;

/// The row at a position of the menu, counted from the top.
pub open spec fn row_at(i: int) -> QuickRow {
    if i <= 0 {
        QuickRow::FastForward
    } else if i == 1 {
        QuickRow::FastForwardSound
    } else if i == 2 {
        QuickRow::ColourCorrection
    } else if i == 3 {
        QuickRow::Rumble
    } else if i == 4 {
        QuickRow::DateTime
    } else if i == 5 {
        QuickRow::Wifi
    } else if i == 6 {
        QuickRow::FileTransfer
    } else {
        QuickRow::About
    }
}

impl QuickRow {
    /// Position of the row, from the top.
    pub open spec fn spec_index(self) -> int {
        match self {
            QuickRow::FastForward => 0,
            QuickRow::FastForwardSound => 1,
            QuickRow::ColourCorrection => 2,
            QuickRow::Rumble => 3,
            QuickRow::DateTime => 4,
            QuickRow::Wifi => 5,
            QuickRow::FileTransfer => 6,
            QuickRow::About => 7,
        }
    }

    /// Every row, top to bottom.
    pub fn all() -> (rows: [QuickRow; 8])
        ensures
            forall|i: int| 0 <= i < 8 ==> #[trigger] rows@[i] == row_at(i),
    {
        [
            QuickRow::FastForward,
            QuickRow::FastForwardSound,
            QuickRow::ColourCorrection,
            QuickRow::Rumble,
            QuickRow::DateTime,
            QuickRow::Wifi,
            QuickRow::FileTransfer,
            QuickRow::About,
        ]
    }

    /// Position in `all`, which is the order the labels are uploaded and drawn in.
    pub fn index(self) -> (i: usize)
        ensures
            i == self.spec_index(),
            i < QUICK_ROWS,
            row_at(i as int) == self,
    {
        match self {
            QuickRow::FastForward => 0,
            QuickRow::FastForwardSound => 1,
            QuickRow::ColourCorrection => 2,
            QuickRow::Rumble => 3,
            QuickRow::DateTime => 4,
            QuickRow::Wifi => 5,
            QuickRow::FileTransfer => 6,
            QuickRow::About => 7,
        }
    }

    /// The row's words.
    pub open spec fn spec_label(self) -> Seq<char> {
        match self {
            QuickRow::FastForward => "Fast Forward"@,
            QuickRow::FastForwardSound => "Fast Forward Sound"@,
            QuickRow::ColourCorrection => "Colour Correction"@,
            QuickRow::Rumble => "Rumble"@,
            QuickRow::DateTime => "Date & Time"@,
            QuickRow::Wifi => "Wi-Fi"@,
            QuickRow::FileTransfer => "File Transfer"@,
            QuickRow::About => "About"@,
        }
    }

    pub fn label(self) -> (s: &'static str)
        ensures
            s@ == self.spec_label(),
    {
        match self {
            QuickRow::FastForward => "Fast Forward",
            QuickRow::FastForwardSound => "Fast Forward Sound",
            QuickRow::ColourCorrection => "Colour Correction",
            QuickRow::Rumble => "Rumble",
            QuickRow::DateTime => "Date & Time",
            QuickRow::Wifi => "Wi-Fi",
            QuickRow::FileTransfer => "File Transfer",
            QuickRow::About => "About",
        }
    }

    /// A row A opens, rather than one the arrows change: the last four.
    pub fn opens(self) -> (b: bool)
        ensures
            b == (self.spec_index() >= 4),
    {
        match self {
            QuickRow::DateTime | QuickRow::Wifi | QuickRow::FileTransfer | QuickRow::About => true,
            _ => false,
        }
    }

    /// The row above, stopping at the top: the bar does not wrap.
    pub fn up(self) -> (r: QuickRow)
        ensures
            r == row_at(self.spec_index() - 1),
            r.spec_index() == if self.spec_index() == 0 { 0 } else { self.spec_index() - 1 },
    {
        let i = self.index();
        let to = if i == 0 { 0 } else { i - 1 };
        let rows = QuickRow::all();
        rows[to]
    }

    /// The row below, stopping at the bottom.
    pub fn down(self) -> (r: QuickRow)
        ensures
            r == row_at(self.spec_index() + 1),
            r.spec_index() == if self.spec_index() == 7 { 7 } else { self.spec_index() + 1 },
    {
        let i = self.index();
        let to = if i + 1 < QUICK_ROWS { i + 1 } else { QUICK_ROWS - 1 };
        let rows = QuickRow::all();
        rows[to]
    }
}

/// Every value a row the arrows change can show.
#[derive(Copy, Clone, PartialEq, Eq, Debug, Structural)]
pub enum QuickValue {
    Speed2,
    Speed3,
    Speed4,
    Speed6,
    On,
    Off,
}

/// The fast forward ceilings the menu offers, in the order the row steps through them.
pub open spec fn ff_speeds() -> Seq<u8> {
    seq![2u8, 3u8, 4u8, 6u8]
}

impl QuickValue {
    pub open spec fn spec_index(self) -> int {
        match self {
            QuickValue::Speed2 => 0,
            QuickValue::Speed3 => 1,
            QuickValue::Speed4 => 2,
            QuickValue::Speed6 => 3,
            QuickValue::On => 4,
            QuickValue::Off => 5,
        }
    }

    /// Every value, in the order the faces are uploaded.
    pub fn all() -> (values: [QuickValue; 6])
        ensures
            forall|i: int| 0 <= i < 6 ==> (#[trigger] values@[i]).spec_index() == i,
    {
        [
            QuickValue::Speed2,
            QuickValue::Speed3,
            QuickValue::Speed4,
            QuickValue::Speed6,
            QuickValue::On,
            QuickValue::Off,
        ]
    }

    /// Position in `all`.
    pub fn index(self) -> (i: usize)
        ensures
            i == self.spec_index(),
    {
        match self {
            QuickValue::Speed2 => 0,
            QuickValue::Speed3 => 1,
            QuickValue::Speed4 => 2,
            QuickValue::Speed6 => 3,
            QuickValue::On => 4,
            QuickValue::Off => 5,
        }
    }

    pub open spec fn spec_text(self) -> Seq<char> {
        match self {
            QuickValue::Speed2 => "2×"@,
            QuickValue::Speed3 => "3×"@,
            QuickValue::Speed4 => "4×"@,
            QuickValue::Speed6 => "6×"@,
            QuickValue::On => "On"@,
            QuickValue::Off => "Off"@,
        }
    }

    pub fn text(self) -> (s: &'static str)
        ensures
            s@ == self.spec_text(),
    {
        match self {
            QuickValue::Speed2 => "2×",
            QuickValue::Speed3 => "3×",
            QuickValue::Speed4 => "4×",
            QuickValue::Speed6 => "6×",
            QuickValue::On => "On",
            QuickValue::Off => "Off",
        }
    }

    /// The speed value a ceiling of `frames` shows, for the four the menu offers.
    pub open spec fn spec_speed(frames: u8) -> Option<QuickValue> {
        if frames == 2 {
            Some(QuickValue::Speed2)
        } else if frames == 3 {
            Some(QuickValue::Speed3)
        } else if frames == 4 {
            Some(QuickValue::Speed4)
        } else if frames == 6 {
            Some(QuickValue::Speed6)
        } else {
            None
        }
    }

    /// A fast forward ceiling the menu offers, and `None` for any other.
    pub fn speed(frames: u8) -> (v: Option<QuickValue>)
        ensures
            v == Self::spec_speed(frames),
            v is Some <==> ff_speeds().contains(frames),
            v matches Some(q) ==> q.spec_index() < 4 && ff_speeds()[q.spec_index()] == frames,
    {
        proof {
            assert(ff_speeds()[0] == 2u8);
            assert(ff_speeds()[1] == 3u8);
            assert(ff_speeds()[2] == 4u8);
            assert(ff_speeds()[3] == 6u8);
        }
        match frames {
            2 => Some(QuickValue::Speed2),
            3 => Some(QuickValue::Speed3),
            4 => Some(QuickValue::Speed4),
            6 => Some(QuickValue::Speed6),
            _ => None,
        }
    }

    /// On or Off, as the flag is.
    pub fn flag(on: bool) -> (v: QuickValue)
        ensures
            v == (if on { QuickValue::On } else { QuickValue::Off }),
    {
        if on {
            QuickValue::On
        } else {
            QuickValue::Off
        }
    }
}

/// The bar does not wrap: up from the top row and down from the bottom one stay put, and a
/// step one way then back returns to the row it left.
pub proof fn lemma_bar_does_not_wrap(r: QuickRow)
    ensures
        row_at(QuickRow::FastForward.spec_index() - 1) == QuickRow::FastForward,
        row_at(QuickRow::About.spec_index() + 1) == QuickRow::About,
        r != QuickRow::About ==> row_at(row_at(r.spec_index() + 1).spec_index() - 1) == r,
        r != QuickRow::FastForward ==> row_at(row_at(r.spec_index() - 1).spec_index() + 1) == r,
{
}

/// The settings the quick menu's arrows change, as the card stores them.
#[derive(Copy, Clone, PartialEq, Eq, Debug, Structural)]
pub struct QuickSettings {
    pub ff_speed: u8,
    pub ff_sound: bool,
    pub colour_correction: bool,
    pub rumble: bool,
}

/// Left or Right on a row: fast forward steps along its speeds without wrapping, the three
/// switches flip, and the rows A opens change nothing.
pub open spec fn change_of(s: QuickSettings, row: QuickRow, right: bool) -> QuickSettings {
    match row {
        QuickRow::FastForward => QuickSettings { ff_speed: crate::link::ff_step(s.ff_speed, right), ..s },
        QuickRow::FastForwardSound => QuickSettings { ff_sound: !s.ff_sound, ..s },
        QuickRow::ColourCorrection => QuickSettings { colour_correction: !s.colour_correction, ..s },
        QuickRow::Rumble => QuickSettings { rumble: !s.rumble, ..s },
        _ => s,
    }
}

/// The value a row shows: the fast-forward speed, if it is one of the speeds, and On or Off
/// for the three switches; the rows A opens show none.
pub open spec fn value_of(s: QuickSettings, row: QuickRow) -> Option<QuickValue> {
    match row {
        QuickRow::FastForward => QuickValue::spec_speed(s.ff_speed),
        QuickRow::FastForwardSound => Some(if s.ff_sound { QuickValue::On } else { QuickValue::Off }),
        QuickRow::ColourCorrection => Some(if s.colour_correction { QuickValue::On } else { QuickValue::Off }),
        QuickRow::Rumble => Some(if s.rumble { QuickValue::On } else { QuickValue::Off }),
        _ => None,
    }
}

impl QuickSettings {
    /// The value shown beside a row; see `value_of`.
    pub fn value(&self, row: QuickRow) -> (v: Option<QuickValue>)
        ensures
            v == value_of(*self, row),
    {
        match row {
            QuickRow::FastForward => QuickValue::speed(self.ff_speed),
            QuickRow::FastForwardSound => Some(QuickValue::flag(self.ff_sound)),
            QuickRow::ColourCorrection => Some(QuickValue::flag(self.colour_correction)),
            QuickRow::Rumble => Some(QuickValue::flag(self.rumble)),
            QuickRow::DateTime | QuickRow::Wifi | QuickRow::FileTransfer | QuickRow::About => None,
        }
    }

    /// Left (or, with `right`, Right) on the row in hand. Says whether anything changed, which
    /// is when the card is written.
    pub fn change_setting(&mut self, row: QuickRow, right: bool) -> (changed: bool)
        ensures
            *final(self) == change_of(*old(self), row, right),
            changed == (*final(self) != *old(self)),
    {
        match row {
            QuickRow::FastForward => {
                let to = crate::link::ff_next(self.ff_speed, right);
                if to == self.ff_speed {
                    return false;
                }
                self.ff_speed = to;
                true
            },
            QuickRow::FastForwardSound => {
                self.ff_sound = !self.ff_sound;
                true
            },
            QuickRow::ColourCorrection => {
                self.colour_correction = !self.colour_correction;
                true
            },
            QuickRow::Rumble => {
                self.rumble = !self.rumble;
                true
            },
            _ => false,
        }
    }
}

/// A press against either end of the speeds changes nothing, so nothing is written: right on
/// the fastest, left on the slowest.
pub proof fn lemma_ends_change_nothing(s: QuickSettings)
    ensures
        s.ff_speed == 6 ==> change_of(s, QuickRow::FastForward, true) == s,
        s.ff_speed == 2 ==> change_of(s, QuickRow::FastForward, false) == s,
{
}

} // verus!
