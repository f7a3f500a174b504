//! The in-game link screen's choices and the settings steps the quick menu takes: which end
//! of a link this device offers to be, the keys the screen shows, the arithmetic of a level
//! or a fast forward ceiling moving one step, and a button on the power menu.
use vstd::prelude::*;

use crate::input::{Btn, Millis};
use crate::quick_menu::ff_speeds;

verus! {

/// The most recent undoable action: a save, with the entry it pushed out of the ring if it
/// did, or a load, with the state it replaced.
pub enum PendingUndo {
    Save { stamp: String, evicted: Option<(String, Vec<u8>, Vec<u8>)> },
    Load { prior: Vec<u8> },
}

/// What the radio is asked to bring up for a link: an access point, or an association to one.
#[derive(Copy, Clone, Debug, PartialEq, Eq, Structural)]
pub enum LinkRole {
    Host,
    Join,
}

/// Which end of a link this device offers to be.
#[derive(Copy, Clone, Debug, PartialEq, Eq, Structural)]
pub enum LinkRow {
    Host,
    Join,
}

impl LinkRow {
    /// Both ends, the host first: it has to exist before the other can arrive.
    pub fn all() -> (rows: [LinkRow; 2])
        ensures
            rows@[0] == LinkRow::Host,
            rows@[1] == LinkRow::Join,
    {
        [LinkRow::Host, LinkRow::Join]
    }

    pub open spec fn spec_index(self) -> int {
        match self {
            LinkRow::Host => 0,
            LinkRow::Join => 1,
        }
    }

    /// Position in `all`.
    pub fn index(self) -> (i: usize)
        ensures
            i == self.spec_index(),
    {
        match self {
            LinkRow::Host => 0,
            LinkRow::Join => 1,
        }
    }

    pub open spec fn spec_text(self) -> Seq<char> {
        match self {
            LinkRow::Host => "Host"@,
            LinkRow::Join => "Join"@,
        }
    }

    /// The row's label.
    pub fn text(self) -> (s: &'static str)
        ensures
            s@ == self.spec_text(),
    {
        match self {
            LinkRow::Host => "Host",
            LinkRow::Join => "Join",
        }
    }

    /// What the radio is asked to bring up for this end.
    pub fn role(self) -> (r: LinkRole)
        ensures
            r == (match self {
                LinkRow::Host => LinkRole::Host,
                LinkRow::Join => LinkRole::Join,
            }),
    {
        match self {
            LinkRow::Host => LinkRole::Host,
            LinkRow::Join => LinkRole::Join,
        }
    }

    pub open spec fn spec_client_id(self) -> u16 {
        match self {
            LinkRow::Host => 0,
            LinkRow::Join => 1,
        }
    }

    /// libretro's client id for this end: 0 the host, 1 the joiner.
    pub fn client_id(self) -> (id: u16)
        ensures
            id == self.spec_client_id(),
    {
        match self {
            LinkRow::Host => 0,
            LinkRow::Join => 1,
        }
    }

    pub open spec fn spec_other(self) -> LinkRow {
        match self {
            LinkRow::Host => LinkRow::Join,
            LinkRow::Join => LinkRow::Host,
        }
    }

    /// The other end.
    pub fn other(self) -> (r: LinkRow)
        ensures
            r == self.spec_other(),
            r != self,
    {
        match self {
            LinkRow::Host => LinkRow::Join,
            LinkRow::Join => LinkRow::Host,
        }
    }

    pub open spec fn spec_from_client_id(id: u16) -> LinkRow {
        if id == 0 {
            LinkRow::Host
        } else {
            LinkRow::Join
        }
    }

    /// The end a libretro client id stands for: the host is client 0.
    pub fn from_client_id(id: u16) -> (r: LinkRow)
        ensures
            r == Self::spec_from_client_id(id),
    {
        if id == 0 {
            LinkRow::Host
        } else {
            LinkRow::Join
        }
    }
}

/// An end's client id names that end again.
pub proof fn lemma_client_id_round_trip(row: LinkRow)
    ensures
        LinkRow::spec_from_client_id(row.spec_client_id()) == row,
{
}

/// The other end of the other end is the end itself, and the two ends' ids differ.
pub proof fn lemma_other_ends(row: LinkRow)
    ensures
        row.spec_other().spec_other() == row,
        row.spec_other().spec_client_id() != row.spec_client_id(),
{
}

/// The keys the link screen shows, in upload order.
#[derive(Copy, Clone, Debug, PartialEq, Eq, Structural)]
pub enum LinkLegend {
    Cancel,
    Mode,
    Swap,
    Link,
    Okay,
    Back,
    EndLink,
}

impl LinkLegend {
    pub open spec fn spec_index(self) -> int {
        match self {
            LinkLegend::Cancel => 0,
            LinkLegend::Mode => 1,
            LinkLegend::Swap => 2,
            LinkLegend::Link => 3,
            LinkLegend::Okay => 4,
            LinkLegend::Back => 5,
            LinkLegend::EndLink => 6,
        }
    }

    /// Every key, in upload order.
    pub fn all() -> (keys: [LinkLegend; 7])
        ensures
            forall|i: int| 0 <= i < 7 ==> (#[trigger] keys@[i]).spec_index() == i,
    {
        [
            LinkLegend::Cancel,
            LinkLegend::Mode,
            LinkLegend::Swap,
            LinkLegend::Link,
            LinkLegend::Okay,
            LinkLegend::Back,
            LinkLegend::EndLink,
        ]
    }

    /// Position in `all`.
    pub fn index(self) -> (i: usize)
        ensures
            i == self.spec_index(),
    {
        match self {
            LinkLegend::Cancel => 0,
            LinkLegend::Mode => 1,
            LinkLegend::Swap => 2,
            LinkLegend::Link => 3,
            LinkLegend::Okay => 4,
            LinkLegend::Back => 5,
            LinkLegend::EndLink => 6,
        }
    }
}

/// How long LINKED stays on screen once a link is up.
pub const LINKED_HOLD_MS: Millis = 1000;

/// How long the unplug stays on screen when a link ends.
pub const UNPLUG_HOLD_MS: Millis = 420;

/// A level raised by a step, no higher than `max`.
pub fn up(level: u8, step: u8, max: u8) -> (r: u8)
    ensures
        r == (if level + step < max { level + step } else { max as int }),
{
    let raised = if level as u16 + step as u16 > 255 { 255u8 } else { level + step };
    if raised < max {
        raised
    } else {
        max
    }
}

/// Where a ceiling sits among the menu's speeds; an unknown one counts as the first.
pub open spec fn ff_position(from: u8) -> int {
    if from == 2 {
        0
    } else if from == 3 {
        1
    } else if from == 4 {
        2
    } else if from == 6 {
        3
    } else {
        0
    }
}

/// One step along the fast forward speeds, not wrapping at either end.
pub open spec fn ff_step(from: u8, right: bool) -> u8 {
    let at = ff_position(from);
    let to = if right { at + 1 } else if at > 0 { at - 1 } else { 0 };
    ff_speeds()[if to < 3 { to } else { 3 }]
}

/// The next fast forward ceiling to the right or left of `from`.
pub fn ff_next(from: u8, right: bool) -> (r: u8)
    ensures
        r == ff_step(from, right),
        ff_speeds().contains(r),
{
    let speeds: [u8; 4] = [2, 3, 4, 6];
    let mut at: usize = 0;
    while at < 4 && speeds[at] != from
        invariant
            at <= 4,
            speeds@ == ff_speeds(),
            forall|j: int| 0 <= j < at ==> speeds@[j] != from,
        decreases 4 - at,
    {
        at += 1;
    }
    if at == 4 {
        at = 0;
    }
    assert(at == ff_position(from));
    let to = if right { at + 1 } else if at > 0 { at - 1 } else { 0 };
    let i = if to < 3 { to } else { 3 };
    assert(ff_speeds()[i as int] == speeds@[i as int]);
    speeds[i]
}

/// What a button does on the power menu: move the highlight to a row, close the menu, carry
/// out the choice on a row, or nothing.
#[derive(Copy, Clone, Debug, PartialEq, Eq, Structural)]
pub enum PowerMenuStep {
    Stay,
    Move(usize),
    Close,
    Commit(usize),
}

/// A button on the power menu of `count` choices with row `index` lit: Up and Down move one
/// row and stop at either end, B leaves, A carries out the lit row, and nothing else counts.
/// Nothing times out.
pub open spec fn power_menu_step_of(index: usize, count: usize, b: Btn) -> PowerMenuStep {
    match b {
        Btn::Up => PowerMenuStep::Move(if index == 0 { 0 } else { (index - 1) as usize }),
        Btn::Down => PowerMenuStep::Move(if index + 1 <= count - 1 { (index + 1) as usize } else { (count - 1) as usize }),
        Btn::B => PowerMenuStep::Close,
        Btn::A => PowerMenuStep::Commit(index),
        _ => PowerMenuStep::Stay,
    }
}

/// A button on the power menu; see `power_menu_step_of`.
pub fn power_menu_step(index: usize, count: usize, b: Btn) -> (s: PowerMenuStep)
    requires
        count >= 1,
    ensures
        s == power_menu_step_of(index, count, b),
{
    let last = count - 1;
    match b {
        Btn::Up => PowerMenuStep::Move(if index == 0 { 0 } else { index - 1 }),
        Btn::Down => PowerMenuStep::Move(if index < last { index + 1 } else { last }),
        Btn::B => PowerMenuStep::Close,
        Btn::A => PowerMenuStep::Commit(index),
        _ => PowerMenuStep::Stay,
    }
}

/// The highlight never leaves the menu: from a row of the menu, every move lands on one, and
/// only a row of the menu is carried out.
pub proof fn lemma_power_menu_stays_on_its_rows(index: usize, count: usize, b: Btn)
    requires
        index < count,
    ensures
        power_menu_step_of(index, count, b) matches PowerMenuStep::Move(j) ==> j < count,
        power_menu_step_of(index, count, b) matches PowerMenuStep::Commit(j) ==> j < count,
{
}

} // verus!
