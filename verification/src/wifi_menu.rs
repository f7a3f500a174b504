//! The controller-driven Wi-Fi screen: its rows, its on-screen keyboard, and what each button
//! does. Passwords are masked and never part of a render cache key.
use vstd::prelude::*;
use vstd::utf8::*;
use vstd::string::StringSliceAdditionalSpecFns;

use crate::input::{Btn, bump, next_rev};
use crate::text::{owned, to_chars, from_chars, has_prefix, starts_with_chars, decimal, decimal_text};
use crate::face::{
    UndoFace, TextRun, TextView, runs_view, run, bright, dim, blank_face, fill, well_formed, in_rect,
    clip_lo, clip_hi, ground, OUT_W, OUT_H,
};
use crate::wifi::{
    Network, NetView, Request, RequestView, Security, Service, Snapshot, SnapView, copy_network, nets_view,
    strings_view, validate, validation_error,
};

verus! {

broadcast use vstd::string::group_string_axioms;

#[verifier::external_type_specification]
#[verifier::external_body]
pub struct ExInstant(std::time::Instant);

/// `Instant::now`: the clock's reading. Nothing is claimed of it.
#[verifier::external_body]
fn now() -> std::time::Instant {
    std::time::Instant::now()
}

/// `Instant::elapsed`, in nanoseconds: how long ago the reading was. Nothing is claimed of it.
#[verifier::external_body]
fn elapsed_nanos(t: &std::time::Instant) -> u128 {
    t.elapsed().as_nanos()
}

/// The keyboard's three pages: lowercase, uppercase, and symbols, ten keys a row.
pub open spec fn key_page(page: int) -> Seq<char> {
    if page == 0 {
        "abcdefghijklmnopqrstuvwxyz0123456789-_. "@
    } else if page == 1 {
        "ABCDEFGHIJKLMNOPQRSTUVWXYZ0123456789-_. "@
    } else {
        "!@#$%^&*()[]{}<>?/\\|;:'\",+=`~_- .0123456"@
    }
}

/// The keyboard's pages, as the screen draws them.
pub fn keys() -> (k: [&'static str; 3])
    ensures
        k@[0]@ == key_page(0),
        k@[1]@ == key_page(1),
        k@[2]@ == key_page(2),
{
    [
        "abcdefghijklmnopqrstuvwxyz0123456789-_. ",
        "ABCDEFGHIJKLMNOPQRSTUVWXYZ0123456789-_. ",
        "!@#$%^&*()[]{}<>?/\\|;:'\",+=`~_- .0123456",
    ]
}

proof fn lemma_key_pages()
    ensures
        key_page(0).len() == 40,
        key_page(1).len() == 40,
        key_page(2).len() == 40,
{
    reveal_strlit("abcdefghijklmnopqrstuvwxyz0123456789-_. ");
    reveal_strlit("ABCDEFGHIJKLMNOPQRSTUVWXYZ0123456789-_. ");
    reveal_strlit("!@#$%^&*()[]{}<>?/\\|;:'\",+=`~_- .0123456");
}

/// Every printable ASCII character, space to tilde, is on some key of the keyboard.
pub proof fn lemma_keyboard_covers_printable_ascii(c: char)
    requires
        32 <= c as u32 <= 126,
    ensures
        exists|p: int, k: int| 0 <= p < 3 && 0 <= k < 40 && #[trigger] key_page(p)[k] == c,
{
    reveal_strlit("abcdefghijklmnopqrstuvwxyz0123456789-_. ");
    reveal_strlit("ABCDEFGHIJKLMNOPQRSTUVWXYZ0123456789-_. ");
    reveal_strlit("!@#$%^&*()[]{}<>?/\\|;:'\",+=`~_- .0123456");
    assert(key_page(0)[39] == ' ');
    assert(key_page(2)[0] == '!');
    assert(key_page(2)[23] == '"');
    assert(key_page(2)[2] == '#');
    assert(key_page(2)[3] == '$');
    assert(key_page(2)[4] == '%');
    assert(key_page(2)[6] == '&');
    assert(key_page(2)[22] == '\'');
    assert(key_page(2)[8] == '(');
    assert(key_page(2)[9] == ')');
    assert(key_page(2)[7] == '*');
    assert(key_page(2)[25] == '+');
    assert(key_page(2)[24] == ',');
    assert(key_page(0)[36] == '-');
    assert(key_page(0)[38] == '.');
    assert(key_page(2)[17] == '/');
    assert(key_page(0)[26] == '0');
    assert(key_page(0)[27] == '1');
    assert(key_page(0)[28] == '2');
    assert(key_page(0)[29] == '3');
    assert(key_page(0)[30] == '4');
    assert(key_page(0)[31] == '5');
    assert(key_page(0)[32] == '6');
    assert(key_page(0)[33] == '7');
    assert(key_page(0)[34] == '8');
    assert(key_page(0)[35] == '9');
    assert(key_page(2)[21] == ':');
    assert(key_page(2)[20] == ';');
    assert(key_page(2)[14] == '<');
    assert(key_page(2)[26] == '=');
    assert(key_page(2)[15] == '>');
    assert(key_page(2)[16] == '?');
    assert(key_page(2)[1] == '@');
    assert(key_page(1)[0] == 'A');
    assert(key_page(1)[1] == 'B');
    assert(key_page(1)[2] == 'C');
    assert(key_page(1)[3] == 'D');
    assert(key_page(1)[4] == 'E');
    assert(key_page(1)[5] == 'F');
    assert(key_page(1)[6] == 'G');
    assert(key_page(1)[7] == 'H');
    assert(key_page(1)[8] == 'I');
    assert(key_page(1)[9] == 'J');
    assert(key_page(1)[10] == 'K');
    assert(key_page(1)[11] == 'L');
    assert(key_page(1)[12] == 'M');
    assert(key_page(1)[13] == 'N');
    assert(key_page(1)[14] == 'O');
    assert(key_page(1)[15] == 'P');
    assert(key_page(1)[16] == 'Q');
    assert(key_page(1)[17] == 'R');
    assert(key_page(1)[18] == 'S');
    assert(key_page(1)[19] == 'T');
    assert(key_page(1)[20] == 'U');
    assert(key_page(1)[21] == 'V');
    assert(key_page(1)[22] == 'W');
    assert(key_page(1)[23] == 'X');
    assert(key_page(1)[24] == 'Y');
    assert(key_page(1)[25] == 'Z');
    assert(key_page(2)[10] == '[');
    assert(key_page(2)[18] == '\\');
    assert(key_page(2)[11] == ']');
    assert(key_page(2)[5] == '^');
    assert(key_page(0)[37] == '_');
    assert(key_page(2)[27] == '`');
    assert(key_page(0)[0] == 'a');
    assert(key_page(0)[1] == 'b');
    assert(key_page(0)[2] == 'c');
    assert(key_page(0)[3] == 'd');
    assert(key_page(0)[4] == 'e');
    assert(key_page(0)[5] == 'f');
    assert(key_page(0)[6] == 'g');
    assert(key_page(0)[7] == 'h');
    assert(key_page(0)[8] == 'i');
    assert(key_page(0)[9] == 'j');
    assert(key_page(0)[10] == 'k');
    assert(key_page(0)[11] == 'l');
    assert(key_page(0)[12] == 'm');
    assert(key_page(0)[13] == 'n');
    assert(key_page(0)[14] == 'o');
    assert(key_page(0)[15] == 'p');
    assert(key_page(0)[16] == 'q');
    assert(key_page(0)[17] == 'r');
    assert(key_page(0)[18] == 's');
    assert(key_page(0)[19] == 't');
    assert(key_page(0)[20] == 'u');
    assert(key_page(0)[21] == 'v');
    assert(key_page(0)[22] == 'w');
    assert(key_page(0)[23] == 'x');
    assert(key_page(0)[24] == 'y');
    assert(key_page(0)[25] == 'z');
    assert(key_page(2)[12] == '{');
    assert(key_page(2)[19] == '|');
    assert(key_page(2)[13] == '}');
    assert(key_page(2)[28] == '~');
}

/// The character a key types.
pub fn key_char(page: usize, key: usize) -> (c: char)
    requires
        page < 3,
        key < 40,
    ensures
        c == key_page(page as int)[key as int],
{
    proof {
        lemma_key_pages();
    }
    let k = keys();
    let chars = to_chars(k[page]);
    chars[key]
}

/// The screen as the specifications see it.
pub struct MenuView {
    pub has_service: bool,
    pub networks: Seq<NetView>,
    pub saved: Seq<Seq<char>>,
    pub connected: Option<Seq<char>>,
    pub status: Seq<char>,
    pub row: int,
    pub busy: bool,
    pub enabled: bool,
    pub saved_view: bool,
    pub editing: Option<NetView>,
    pub password: Seq<char>,
    pub key: int,
    pub page: int,
    pub revision: u64,
    pub handed: Seq<RequestView>,
}

pub open spec fn opt_chars(o: Option<String>) -> Option<Seq<char>> {
    match o {
        Some(s) => Some(s@),
        None => None,
    }
}

pub open spec fn opt_net(o: Option<Network>) -> Option<NetView> {
    match o {
        Some(n) => Some(n@),
        None => None,
    }
}

pub struct WifiMenu {
    pub service: Option<Service>,
    pub networks: Vec<Network>,
    pub saved: Vec<String>,
    pub connected: Option<String>,
    pub status: String,
    pub row: usize,
    pub busy: bool,
    pub enabled: bool,
    pub saved_view: bool,
    pub editing: Option<Network>,
    pub password: String,
    pub key: usize,
    pub page: usize,
    pub revision: u64,
    pub checked: std::time::Instant,
    /// Every request handed to the worker, oldest first; for the specifications only.
    pub handed: Ghost<Seq<RequestView>>,
}

impl View for WifiMenu {
    type V = MenuView;

    open spec fn view(&self) -> MenuView {
        MenuView {
            has_service: self.service is Some,
            networks: nets_view(self.networks@),
            saved: strings_view(self.saved@),
            connected: opt_chars(self.connected),
            status: self.status@,
            row: self.row as int,
            busy: self.busy,
            enabled: self.enabled,
            saved_view: self.saved_view,
            editing: opt_net(self.editing),
            password: self.password@,
            key: self.key as int,
            page: self.page as int,
            revision: self.revision,
            handed: self.handed@,
        }
    }
}

/// The screen is one the buttons can act on: a key on the page, a row below the last
/// possible one.
pub open spec fn menu_wf(v: MenuView) -> bool {
    &&& 0 <= v.key < 40
    &&& 0 <= v.page < 3
    &&& 0 <= v.row < usize::MAX
}

/// The scan results below the joined network: everything but that one.
pub open spec fn visible(ns: Seq<NetView>, connected: Option<Seq<char>>) -> Seq<NetView>
    decreases ns.len(),
{
    if ns.len() == 0 {
        seq![]
    } else {
        let r = visible(ns.drop_last(), connected);
        if connected == Some(ns.last().0) {
            r
        } else {
            r.push(ns.last())
        }
    }
}

proof fn lemma_visible_len(ns: Seq<NetView>, connected: Option<Seq<char>>)
    ensures
        visible(ns, connected).len() <= ns.len(),
    decreases ns.len(),
{
    if ns.len() > 0 {
        lemma_visible_len(ns.drop_last(), connected);
    }
}

/// The last row of the main list: Wi-Fi on or off, Saved networks, the joined network if
/// there is one, then each visible scan result. (Held below `usize::MAX`, which no list in
/// memory comes near.)
pub open spec fn last_row_of(v: MenuView) -> int {
    min_int(
        1 + (if v.connected is Some { 1int } else { 0int }) + visible(v.networks, v.connected).len(),
        usize::MAX - 1,
    )
}

pub open spec fn sat_sub(a: int, b: int) -> int {
    if a >= b { a - b } else { 0 }
}

pub open spec fn min_int(a: int, b: int) -> int {
    if a <= b { a } else { b }
}

/// The line shown when the worker has stopped answering.
pub open spec fn worker_stopped() -> Seq<char> {
    "Wi-Fi worker stopped; restart Slot+"@
}

/// A request handed to the worker with the line to show while it works: with no worker
/// nothing happens but the new revision; otherwise the screen goes busy when the worker took
/// the request (`sent`) and says the worker stopped when it did not.
pub open spec fn with_request(v: MenuView, r: RequestView, msg: Seq<char>, sent: bool) -> MenuView {
    if !v.has_service {
        MenuView { revision: next_rev(v.revision), ..v }
    } else if sent {
        MenuView { revision: next_rev(v.revision), handed: v.handed.push(r), busy: true, status: msg, ..v }
    } else {
        MenuView { revision: next_rev(v.revision), handed: v.handed.push(r), status: worker_stopped(), ..v }
    }
}

pub open spec fn turn_on_first() -> Seq<char> {
    "Turn Wi-Fi on first"@
}

/// A button on the password keyboard.
pub open spec fn editing_step(v: MenuView, b: Btn, sent: bool) -> MenuView {
    let network = v.editing->0;
    match b {
        Btn::Up => MenuView { key: sat_sub(v.key, 10), ..v },
        Btn::Down => MenuView { key: min_int(v.key + 10, 39), ..v },
        Btn::Left => MenuView { key: sat_sub(v.key, 1), ..v },
        Btn::Right => MenuView { key: min_int(v.key + 1, 39), ..v },
        Btn::Y => MenuView { page: (v.page + 1) % 3, ..v },
        Btn::X => MenuView {
            password: if v.password.len() > 0 { v.password.drop_last() } else { v.password },
            ..v
        },
        Btn::A => if encode_utf8(v.password).len() < 64 {
            MenuView { password: v.password.push(key_page(v.page)[v.key]), ..v }
        } else {
            v
        },
        Btn::Start => match validation_error(network, encode_utf8(v.password)) {
            Some(e) => MenuView { status: e, ..v },
            None => with_request(
                MenuView { password: seq![], editing: None, ..v },
                RequestView::Connect(network, v.password),
                "Connecting... (up to 45 seconds)"@,
                sent,
            ),
        },
        _ => v,
    }
}

/// A button on the Saved networks list.
pub open spec fn saved_step(v: MenuView, b: Btn, sent: bool) -> MenuView {
    match b {
        Btn::Up => MenuView { row: sat_sub(v.row, 1), ..v },
        Btn::Down => MenuView { row: min_int(v.row + 1, sat_sub(v.saved.len() as int, 1)), ..v },
        Btn::A => if !v.enabled {
            MenuView { status: turn_on_first(), ..v }
        } else if v.row < v.saved.len() {
            with_request(v, RequestView::ConnectSaved(v.saved[v.row]), "Connecting to saved network..."@, sent)
        } else {
            v
        },
        Btn::X => if v.row < v.saved.len() {
            with_request(v, RequestView::ForgetSaved(v.saved[v.row]), "Forgetting saved network..."@, sent)
        } else {
            v
        },
        _ => v,
    }
}

/// A on a scan result: open networks are joined, personal ones open the keyboard, others
/// are refused.
pub open spec fn choose_network(v: MenuView, n: NetView, sent: bool) -> MenuView {
    match n.2 {
        Security::Open => with_request(v, RequestView::Connect(n, seq![]), "Connecting..."@, sent),
        Security::Unsupported => MenuView { status: "This network's security is not supported"@, ..v },
        Security::Personal => MenuView {
            editing: Some(n),
            password: seq![],
            key: 0,
            page: 0,
            status: "Enter the Wi-Fi password"@,
            ..v
        },
    }
}

/// A button on the main list.
pub open spec fn main_step(v: MenuView, b: Btn, sent: bool) -> MenuView {
    let joined = if v.connected is Some { 1int } else { 0int };
    match b {
        Btn::Up => MenuView { row: sat_sub(v.row, 1), ..v },
        Btn::Down => MenuView { row: min_int(v.row + 1, last_row_of(v)), ..v },
        Btn::X => if !v.enabled {
            MenuView { status: turn_on_first(), ..v }
        } else {
            with_request(v, RequestView::Scan, "Scanning for networks..."@, sent)
        },
        Btn::Y => if v.row == 2 && v.connected is Some {
            with_request(v, RequestView::Disconnect, "Disconnecting..."@, sent)
        } else {
            v
        },
        Btn::A => if !v.enabled && v.row > 1 {
            MenuView { status: turn_on_first(), ..v }
        } else if v.row == 0 {
            if v.enabled {
                with_request(v, RequestView::Disable, "Turning Wi-Fi off..."@, sent)
            } else {
                with_request(v, RequestView::Enable, "Turning Wi-Fi on..."@, sent)
            }
        } else if v.row == 1 {
            MenuView { saved_view: true, row: 0, ..v }
        } else if v.row == 2 && v.connected is Some {
            v
        } else if v.row - 2 - joined < visible(v.networks, v.connected).len() {
            choose_network(v, visible(v.networks, v.connected)[v.row - 2 - joined], sent)
        } else {
            v
        },
        _ => v,
    }
}

/// What a button does to the screen, and whether it leaves for the settings: B backs out of
/// the keyboard, then the saved list, then the screen; nothing else acts while the worker is
/// busy.
pub open spec fn input_step(v0: MenuView, b: Btn, sent: bool) -> (MenuView, bool) {
    let v = MenuView { revision: next_rev(v0.revision), ..v0 };
    if b == Btn::B {
        if v.editing is Some {
            (MenuView { editing: None, password: seq![], ..v }, false)
        } else if v.saved_view {
            (MenuView { saved_view: false, row: 1, ..v }, false)
        } else {
            (v, true)
        }
    } else if v.busy {
        (v, false)
    } else if v.editing is Some {
        (editing_step(v, b, sent), false)
    } else if v.saved_view {
        (saved_step(v, b, sent), false)
    } else {
        (main_step(v, b, sent), false)
    }
}

/// What opening the screen does: back to the top of the main list with no scan results and
/// no password, then a status check unless the worker is busy or Wi-Fi is off.
pub open spec fn open_step(v0: MenuView, sent: bool) -> MenuView {
    let v = MenuView {
        row: 0,
        networks: seq![],
        saved_view: false,
        editing: None,
        password: seq![],
        ..v0
    };
    let w = if !v.busy && v.enabled {
        with_request(v, RequestView::Status, "Checking Wi-Fi status..."@, sent)
    } else {
        v
    };
    MenuView { revision: next_rev(w.revision), ..w }
}

/// A snapshot from the worker applied: its status, switch and joined network, its scan
/// results (or none, once Wi-Fi is off), its saved names, and the row kept on the list.
pub open spec fn with_snapshot(v: MenuView, s: SnapView) -> MenuView {
    let enabled = s.4;
    let networks = match s.0 {
        Some(n) => n,
        None => if !enabled { seq![] } else { v.networks },
    };
    let w = MenuView {
        busy: false,
        status: s.3,
        enabled,
        connected: s.2,
        networks,
        saved: s.1,
        ..v
    };
    let limit = if w.saved_view { sat_sub(w.saved.len() as int, 1) } else { last_row_of(w) };
    MenuView { row: min_int(w.row, limit), revision: next_rev(w.revision), ..w }
}

/// A frame's poll: the snapshot that came (if one did), then, while a connected screen is
/// shown idle and its last check is old (`due`), a fresh status check that keeps the line.
pub open spec fn poll_step(v: MenuView, s: Option<SnapView>, visible: bool, due: bool, sent: bool) -> MenuView {
    let w = match s {
        Some(snap) => with_snapshot(v, snap),
        None => v,
    };
    if visible && !w.busy && w.editing is None && has_prefix(w.status, "Connected"@) && due {
        with_request(w, RequestView::Status, w.status, sent)
    } else {
        w
    }
}

/// What boot does: the switch as the card left it, the worker if there is one, and then
/// turning Wi-Fi off again, or rejoining a saved network, as the card asks.
pub open spec fn boot_step(v: MenuView, enabled: bool, auto_connect: bool, has_service: bool, sent: bool) -> MenuView {
    let w = MenuView { enabled, has_service, ..v };
    if !has_service {
        w
    } else {
        let x = MenuView { status: "Press X to scan networks"@, ..w };
        if !enabled {
            with_request(x, RequestView::Disable, "Turning Wi-Fi off..."@, sent)
        } else if auto_connect {
            with_request(x, RequestView::Reconnect, "Connecting to a saved network..."@, sent)
        } else {
            x
        }
    }
}

impl Default for WifiMenu {
    fn default() -> (m: WifiMenu)
        ensures
            !m@.has_service,
            m@.networks.len() == 0,
            m@.saved.len() == 0,
            m@.connected is None,
            m@.status == "Wi-Fi requires BaseOS on the handheld"@,
            m@.row == 0,
            !m@.busy,
            m@.enabled,
            !m@.saved_view,
            m@.editing is None,
            m@.password.len() == 0,
            m@.key == 0,
            m@.page == 0,
            m@.revision == 1,
            m@.handed.len() == 0,
            menu_wf(m@),
    {
        WifiMenu::initial()
    }
}

impl WifiMenu {
    /// A screen with no worker yet, on the main list, saying Wi-Fi needs BaseOS.
    fn initial() -> (m: WifiMenu)
        ensures
            !m@.has_service,
            m@.networks.len() == 0,
            m@.saved.len() == 0,
            m@.connected is None,
            m@.status == "Wi-Fi requires BaseOS on the handheld"@,
            m@.row == 0,
            !m@.busy,
            m@.enabled,
            !m@.saved_view,
            m@.editing is None,
            m@.password.len() == 0,
            m@.key == 0,
            m@.page == 0,
            m@.revision == 1,
            m@.handed.len() == 0,
            menu_wf(m@),
    {
        WifiMenu {
            service: None,
            networks: Vec::new(),
            saved: Vec::new(),
            connected: None,
            status: owned("Wi-Fi requires BaseOS on the handheld"),
            row: 0,
            busy: false,
            enabled: true,
            saved_view: false,
            editing: None,
            password: String::new(),
            key: 0,
            page: 0,
            revision: 1,
            checked: now(),
            handed: Ghost(Seq::empty()),
        }
    }

    pub fn revision(&self) -> (r: u64)
        ensures
            r == self@.revision,
    {
        self.revision
    }

    fn request(&mut self, request: Request, status: &str)
        ensures
            final(self)@ == with_request(old(self)@, request@, status@, true) || final(self)@ == with_request(
                old(self)@,
                request@,
                status@,
                false,
            ),
    {
        let ghost r = request@;
        match &self.service {
            Some(service) => {
                if service.send(request) {
                    self.busy = true;
                    self.status = owned(status);
                    proof {
                        self.handed@ = self.handed@.push(r);
                    }
                } else {
                    self.status = owned("Wi-Fi worker stopped; restart Slot+");
                    proof {
                        self.handed@ = self.handed@.push(r);
                    }
                }
            },
            None => {},
        }
        self.revision = bump(self.revision);
    }

    /// The scan results shown below the joined network.
    pub fn visible_networks(&self) -> (v: Vec<Network>)
        ensures
            nets_view(v@) == visible(self@.networks, self@.connected),
    {
        let mut out: Vec<Network> = Vec::new();
        let ghost ns = self@.networks;
        let mut i: usize = 0;
        while i < self.networks.len()
            invariant
                i <= self.networks@.len(),
                ns == nets_view(self.networks@),
                nets_view(out@) == visible(ns.take(i as int), opt_chars(self.connected)),
            decreases self.networks@.len() - i,
        {
            proof {
                assert(ns.take(i + 1).drop_last() =~= ns.take(i as int));
                assert(ns.take(i + 1).last() == self.networks@[i as int]@);
            }
            let hidden = match &self.connected {
                Some(c) => self.networks[i].ssid == *c,
                None => false,
            };
            if !hidden {
                out.push(copy_network(&self.networks[i]));
            }
            assert(nets_view(out@) =~= visible(ns.take(i + 1), opt_chars(self.connected)));
            i += 1;
        }
        assert(ns.take(self.networks@.len() as int) =~= ns);
        out
    }

    /// The last row of the main list.
    pub fn last_row(&self) -> (r: usize)
        requires
            menu_wf(self@),
        ensures
            r == last_row_of(self@),
    {
        let v = self.visible_networks();
        let joined: usize = if self.connected.is_some() { 1 } else { 0 };
        if v.len() >= usize::MAX - 2 {
            usize::MAX - 1
        } else {
            1 + joined + v.len()
        }
    }

    /// Back to the top of the main list, clearing scan results and any half-typed password,
    /// and checking the connection unless the worker is busy or Wi-Fi is off.
    pub fn open(&mut self)
        ensures
            final(self)@ == open_step(old(self)@, true) || final(self)@ == open_step(old(self)@, false),
    {
        self.row = 0;
        self.networks.clear();
        self.saved_view = false;
        self.editing = None;
        self.password = String::new();
        if !self.busy && self.enabled {
            self.request(Request::Status, "Checking Wi-Fi status...");
        }
        self.revision = bump(self.revision);
        proof {
            assert(nets_view(self.networks@) =~= Seq::<NetView>::empty());
        }
    }

    /// A button press. True means return to settings. The worker may finish while this
    /// screen is closed.
    pub fn input(&mut self, button: Btn) -> (leave: bool)
        requires
            menu_wf(old(self)@),
        ensures
            (final(self)@, leave) == input_step(old(self)@, button, true) || (final(self)@, leave)
                == input_step(old(self)@, button, false),
            menu_wf(final(self)@),
    {
        let ghost v0 = self@;
        self.revision = bump(self.revision);
        if button == Btn::B {
            if self.editing.is_some() {
                self.editing = None;
                self.password = String::new();
                return false;
            }
            if self.saved_view {
                self.saved_view = false;
                self.row = 1;
                return false;
            }
            return true;
        }
        if self.busy {
            return false;
        }
        match &self.editing {
            Some(n) => {
                let network = copy_network(n);
                self.input_editing(network, button);
                return false;
            },
            None => {},
        }
        if self.saved_view {
            self.input_saved(button);
            return false;
        }
        self.input_main(button);
        false
    }

    fn input_editing(&mut self, network: Network, button: Btn)
        requires
            menu_wf(old(self)@),
            old(self)@.editing == Some(network@),
        ensures
            final(self)@ == editing_step(old(self)@, button, true) || final(self)@ == editing_step(old(self)@, button, false),
            menu_wf(final(self)@),
    {
        match button {
            Btn::Up => self.key = if self.key >= 10 { self.key - 10 } else { 0 },
            Btn::Down => self.key = if self.key + 10 <= 39 { self.key + 10 } else { 39 },
            Btn::Left => self.key = if self.key >= 1 { self.key - 1 } else { 0 },
            Btn::Right => self.key = if self.key + 1 <= 39 { self.key + 1 } else { 39 },
            Btn::Y => self.page = (self.page + 1) % 3,
            Btn::X => {
                let chars = to_chars(self.password.as_str());
                if chars.len() > 0 {
                    let kept = crate::text::copy_range(chars.as_slice(), 0, chars.len() - 1);
                    assert(kept@ =~= self.password@.drop_last());
                    self.password = from_chars(kept.as_slice());
                }
            },
            Btn::A => {
                if self.password.as_str().as_bytes().len() < 64 {
                    let c = key_char(self.page, self.key);
                    let one = from_chars(&[c]);
                    self.password.append(one.as_str());
                    assert(self.password@ =~= old(self)@.password.push(c));
                }
            },
            Btn::Start => {
                match validate(&network, self.password.as_str()) {
                    Err(error) => {
                        self.status = error;
                    },
                    Ok(()) => {
                        let mut password = String::new();
                        std::mem::swap(&mut password, &mut self.password);
                        self.editing = None;
                        self.request(
                            Request::Connect(network, password),
                            "Connecting... (up to 45 seconds)",
                        );
                    },
                }
            },
            _ => {},
        }
    }

    fn input_saved(&mut self, button: Btn)
        requires
            menu_wf(old(self)@),
            old(self)@.editing is None,
            old(self)@.saved_view,
        ensures
            final(self)@ == saved_step(old(self)@, button, true) || final(self)@ == saved_step(old(self)@, button, false),
            menu_wf(final(self)@),
    {
        match button {
            Btn::Up => self.row = if self.row >= 1 { self.row - 1 } else { 0 },
            Btn::Down => {
                let last = if self.saved.len() >= 1 { self.saved.len() - 1 } else { 0 };
                self.row = if self.row + 1 <= last { self.row + 1 } else { last };
            },
            Btn::A => {
                if !self.enabled {
                    self.status = owned("Turn Wi-Fi on first");
                } else if self.row < self.saved.len() {
                    let ssid = self.saved[self.row].clone();
                    self.request(Request::ConnectSaved(ssid), "Connecting to saved network...");
                }
            },
            Btn::X => {
                if self.row < self.saved.len() {
                    let ssid = self.saved[self.row].clone();
                    self.request(Request::ForgetSaved(ssid), "Forgetting saved network...");
                }
            },
            _ => {},
        }
    }

    fn input_main(&mut self, button: Btn)
        requires
            menu_wf(old(self)@),
            old(self)@.editing is None,
            !old(self)@.saved_view,
        ensures
            final(self)@ == main_step(old(self)@, button, true) || final(self)@ == main_step(old(self)@, button, false),
            menu_wf(final(self)@),
    {
        match button {
            Btn::Up => self.row = if self.row >= 1 { self.row - 1 } else { 0 },
            Btn::Down => {
                let last = self.last_row();
                self.row = if self.row + 1 <= last { self.row + 1 } else { last };
            },
            Btn::X => {
                if !self.enabled {
                    self.status = owned("Turn Wi-Fi on first");
                } else {
                    self.request(Request::Scan, "Scanning for networks...");
                }
            },
            Btn::Y => {
                if self.row == 2 && self.connected.is_some() {
                    self.request(Request::Disconnect, "Disconnecting...");
                }
            },
            Btn::A => {
                if !self.enabled && self.row > 1 {
                    self.status = owned("Turn Wi-Fi on first");
                } else if self.row == 0 {
                    if self.enabled {
                        self.request(Request::Disable, "Turning Wi-Fi off...");
                    } else {
                        self.request(Request::Enable, "Turning Wi-Fi on...");
                    }
                } else if self.row == 1 {
                    self.saved_view = true;
                    self.row = 0;
                } else if self.row == 2 && self.connected.is_some() {
                } else {
                    let joined: usize = if self.connected.is_some() { 1 } else { 0 };
                    let vis = self.visible_networks();
                    let index = self.row - 2 - joined;
                    if index < vis.len() {
                        let network = copy_network(&vis[index]);
                        assert(nets_view(vis@)[index as int] == vis@[index as int]@);
                        self.pick(network);
                    }
                }
            },
            _ => {},
        }
    }

    fn pick(&mut self, network: Network)
        requires
            menu_wf(old(self)@),
        ensures
            final(self)@ == choose_network(old(self)@, network@, true) || final(self)@ == choose_network(old(self)@, network@, false),
            menu_wf(final(self)@),
    {
        match network.security {
            Security::Open => self.request(Request::Connect(network, String::new()), "Connecting..."),
            Security::Unsupported => {
                self.status = owned("This network's security is not supported");
            },
            Security::Personal => {
                self.editing = Some(network);
                self.password = String::new();
                self.key = 0;
                self.page = 0;
                self.status = owned("Enter the Wi-Fi password");
            },
        }
    }

    /// Starts the screen on the card's Wi-Fi choice and the worker, if this device has one:
    /// Wi-Fi left off is turned off again, and a saved network is rejoined when Wi-Fi is on.
    pub fn boot(&mut self, enabled: bool, auto_connect: bool, service: Option<Service>)
        ensures
            final(self)@ == boot_step(old(self)@, enabled, auto_connect, service is Some, true)
                || final(self)@ == boot_step(old(self)@, enabled, auto_connect, service is Some, false),
    {
        self.enabled = enabled;
        self.service = service;
        if self.service.is_some() {
            self.status = owned("Press X to scan networks");
            if !self.enabled {
                self.request(Request::Disable, "Turning Wi-Fi off...");
            } else if auto_connect {
                self.request(Request::Reconnect, "Connecting to a saved network...");
            }
        }
    }

    /// Shows what a snapshot from the worker says; see `with_snapshot`.
    pub fn apply_snapshot(&mut self, snapshot: Snapshot)
        requires
            menu_wf(old(self)@),
        ensures
            final(self)@ == with_snapshot(old(self)@, snapshot@),
            menu_wf(final(self)@),
    {
        self.busy = false;
        self.status = snapshot.status;
        self.enabled = snapshot.enabled;
        self.connected = snapshot.connected;
        if !self.enabled {
            self.networks.clear();
            assert(nets_view(self.networks@) =~= Seq::<NetView>::empty());
        }
        match snapshot.networks {
            Some(networks) => {
                self.networks = networks;
            },
            None => {},
        }
        self.saved = snapshot.saved;
        let limit = if self.saved_view {
            if self.saved.len() >= 1 { self.saved.len() - 1 } else { 0 }
        } else {
            self.last_row()
        };
        if self.row > limit {
            self.row = limit;
        }
        self.revision = bump(self.revision);
    }

    /// Takes the worker's news, if any, and rechecks a connection shown idle for more than
    /// ten seconds. Without a worker there is no news, and no request is handed anywhere.
    pub fn poll(&mut self, visible: bool)
        requires
            menu_wf(old(self)@),
        ensures
            exists|s: Option<SnapView>, due: bool, sent: bool|
                final(self)@ == #[trigger] poll_step(old(self)@, s, visible, due, sent),
            !old(self)@.has_service ==> exists|due: bool|
                final(self)@ == #[trigger] poll_step(old(self)@, None, visible, due, false),
    {
        let ghost v0 = self@;
        let mut got: Option<Snapshot> = None;
        match &self.service {
            Some(service) => {
                got = service.poll();
            },
            None => {},
        }
        let ghost s: Option<SnapView> = match &got {
            Some(snap) => Some(snap@),
            None => None,
        };
        match got {
            Some(snapshot) => {
                self.apply_snapshot(snapshot);
                self.checked = now();
            },
            None => {},
        }
        let ghost w = self@;
        let connected = {
            let chars = to_chars(self.status.as_str());
            let pre = to_chars("Connected");
            starts_with_chars(chars.as_slice(), pre.as_slice())
        };
        let mut due = false;
        if visible && !self.busy && self.editing.is_none() && connected {
            due = elapsed_nanos(&self.checked) > 10_000_000_000;
            if due {
                let status = self.status.clone();
                self.request(Request::Status, status.as_str());
                self.checked = now();
            }
        }
        assert(final(self)@ == poll_step(v0, s, visible, due, true) || self@ == poll_step(v0, s, visible, due, false));
        proof {
            if !v0.has_service {
                assert(s is None);
                assert(self@ == poll_step(v0, None, visible, due, false));
            }
        }
    }

    /// The rows the list shows: the switch, Saved networks, the joined network and the scan
    /// results; or the saved names, or a line saying there are none.
    pub fn rows(&self) -> (rows: Vec<String>)
        ensures
            strings_view(rows@) == menu_rows(self@),
    {
        let mut rows: Vec<String> = Vec::new();
        if self.saved_view {
            if self.saved.len() == 0 {
                rows.push(owned("No saved networks"));
                assert(strings_view(rows@) =~= menu_rows(self@));
                return rows;
            }
            let mut i: usize = 0;
            while i < self.saved.len()
                invariant
                    i <= self.saved@.len(),
                    self.saved_view,
                    self.saved@.len() > 0,
                    strings_view(rows@) == strings_view(self.saved@).take(i as int),
                decreases self.saved@.len() - i,
            {
                let s = self.saved[i].clone();
                let ghost before = strings_view(rows@);
                rows.push(s);
                assert(strings_view(rows@) =~= before.push(self.saved@[i as int]@));
                assert(strings_view(self.saved@).take(i + 1) =~= strings_view(self.saved@).take(i as int).push(
                    self.saved@[i as int]@,
                ));
                i += 1;
            }
            assert(strings_view(self.saved@).take(self.saved@.len() as int) =~= strings_view(self.saved@));
            return rows;
        }
        let mut first = owned("Wi-Fi: ");
        first.append(if self.enabled { "On" } else { "Off" });
        rows.push(first);
        rows.push(owned("Saved networks"));
        match &self.connected {
            Some(ssid) => {
                let mut line = ssid.clone();
                line.append("  [Connected]");
                rows.push(line);
            },
            None => {},
        }
        let ghost head = strings_view(rows@);
        let vis = self.visible_networks();
        let mut i: usize = 0;
        while i < vis.len()
            invariant
                i <= vis@.len(),
                strings_view(rows@) == head + nets_view(vis@).take(i as int).map_values(|n: NetView| row_label(n)),
            decreases vis@.len() - i,
        {
            let mut line = vis[i].ssid.clone();
            line.append("  [");
            line.append(match vis[i].security {
                Security::Open => "Open",
                Security::Personal => "Password",
                Security::Unsupported => "Unsupported",
            });
            line.append("]");
            let ghost before = strings_view(rows@);
            rows.push(line);
            assert(nets_view(vis@).take(i + 1).map_values(|n: NetView| row_label(n)) =~= nets_view(vis@).take(
                i as int,
            ).map_values(|n: NetView| row_label(n)).push(row_label(vis@[i as int]@)));
            assert(strings_view(rows@) =~= before.push(line@));
            i += 1;
        }
        assert(nets_view(vis@).take(vis@.len() as int) =~= nets_view(vis@));
        assert(strings_view(rows@) =~= menu_rows(self@));
        rows
    }

    /// The lines of type the screen sets, in the order they are drawn.
    pub fn labels(&self) -> (runs: Vec<TextRun>)
        requires
            menu_wf(self@),
        ensures
            runs_view(runs@) == labels_of(self@),
    {
        let mut runs: Vec<TextRun> = Vec::new();
        let r0 = run(owned(if self.saved_view { "Saved networks" } else { "Wi-Fi" }), 28, 20, 30, 584, [240, 240, 244]);
        let r1 = run(self.status.clone(), 28, 63, 18, 584, [185, 190, 200]);
        assert(r0@.5 =~= bright());
        assert(r1@.5 =~= dim());
        runs.push(r0);
        runs.push(r1);
        let ghost top = runs_view(runs@);
        assert(top =~= seq![
            (if self@.saved_view { "Saved networks"@ } else { "Wi-Fi"@ }, 28i32, 20i32, 30u32, 584i32, bright()),
            (self@.status, 28i32, 63i32, 18u32, 584i32, dim()),
        ]);
        match &self.editing {
            Some(network) => {
                let r2 = run(network.ssid.clone(), 28, 99, 22, 584, [240, 240, 244]);
                assert(r2@.5 =~= bright());
                runs.push(r2);
                let n = self.password.as_str().as_bytes().len();
                let stars = if n < 24 { n } else { 24 };
                let mut stars_line: Vec<char> = Vec::new();
                while stars_line.len() < stars
                    invariant
                        stars_line@.len() <= stars,
                        forall|k: int| 0 <= k < stars_line@.len() ==> #[trigger] stars_line@[k] == '*',
                    decreases stars - stars_line@.len(),
                {
                    stars_line.push('*');
                }
                let mut line = from_chars(stars_line.as_slice());
                line.append("  (");
                let count = decimal_text(n as u64);
                line.append(count.as_str());
                line.append(" characters)");
                assert(stars_line@ =~= Seq::new(stars as nat, |k: int| '*'));
                assert(line@ =~= masked(self@.password));
                let r3 = run(line, 28, 139, 19, 584, [185, 190, 200]);
                assert(r3@.5 =~= dim());
                runs.push(r3);
                let ghost head = runs_view(runs@);
                proof {
                    lemma_key_pages();
                }
                let page = to_chars(keys()[self.page]);
                let mut i: usize = 0;
                while i < 40
                    invariant
                        i <= 40,
                        0 <= self@.page < 3,
                        page@ == key_page(self@.page),
                        page@.len() == 40,
                        runs_view(runs@) == head + key_labels(self@.page).take(i as int),
                    decreases 40 - i,
                {
                    let c = page[i];
                    let label = if c == ' ' {
                        owned("SP")
                    } else {
                        let one: [char; 1] = [c];
                        let s = from_chars(&one);
                        assert(s@ =~= seq![c]);
                        s
                    };
                    let x = (28 + (i % 10) * 58 + 8) as i32;
                    let y = (190 + (i / 10) * 45) as i32;
                    let ghost before = runs_view(runs@);
                    let r = run(label, x, y, 23, 40, [240, 240, 244]);
                    assert(r@.5 =~= bright());
                    assert(r@ == key_labels(self@.page)[i as int]);
                    runs.push(r);
                    assert(key_labels(self@.page).take(i + 1) =~= key_labels(self@.page).take(i as int).push(
                        key_labels(self@.page)[i as int],
                    ));
                    assert(runs_view(runs@) =~= before.push(key_labels(self@.page)[i as int]));
                    i += 1;
                }
                assert(key_labels(self@.page).take(40) =~= key_labels(self@.page));
                let r4 = run(owned("A Type   X Erase   Y abc/ABC/123"), 28, 391, 19, 584, [185, 190, 200]);
                let r5 = run(owned("START Connect   B Cancel"), 28, 433, 19, 584, [240, 240, 244]);
                assert(r4@.5 =~= dim());
                assert(r5@.5 =~= bright());
                let ghost keyed = runs_view(runs@);
                runs.push(r4);
                runs.push(r5);
                proof {
                    assert(head =~= top + seq![r2@, r3@]);
                    assert(runs_view(runs@) =~= keyed + seq![r4@, r5@]);
                    assert(self@.editing == Some(network@));
                    assert(runs_view(runs@) =~= labels_of(self@));
                }
            },
            None => {
                let rows = self.rows();
                let first = if self.row >= 5 { self.row - 5 } else { 0 };
                let end = if first + 6 < rows.len() { first + 6 } else { rows.len() };
                let count = if end > first { end - first } else { 0 };
                let ghost head = runs_view(runs@);
                let mut k: usize = 0;
                while k < count
                    invariant
                        first == sat_sub(self@.row, 5),
                        end == min_int(first + 6, rows@.len() as int),
                        count == (if end > first { end - first } else { 0 }),
                        k <= count,
                        strings_view(rows@) == menu_rows(self@),
                        runs_view(runs@) == head + row_labels(self@).take(k as int),
                    decreases count - k,
                {
                    let y = (105 + k * 46) as i32;
                    let ghost before = runs_view(runs@);
                    let r = run(rows[first + k].clone(), 28, y, 22, 584, [240, 240, 244]);
                    assert(r@.5 =~= bright());
                    assert(strings_view(rows@)[first + k] == rows@[first + k]@);
                    assert(r@ == row_labels(self@)[k as int]);
                    runs.push(r);
                    assert(row_labels(self@).take(k + 1) =~= row_labels(self@).take(k as int).push(
                        row_labels(self@)[k as int],
                    ));
                    assert(runs_view(runs@) =~= before.push(row_labels(self@)[k as int]));
                    k += 1;
                }
                assert(row_labels(self@).take(count as int) =~= row_labels(self@));
                let ghost mid = runs_view(runs@);
                if !self.saved_view {
                    let r6 = run(owned("SFTP: port 22 | user root | your BaseOS password"), 28, 391, 18, 584, [185, 190, 200]);
                    assert(r6@.5 =~= dim());
                    runs.push(r6);
                }
                let hint = if self.busy {
                    "Working...   B Back"
                } else if self.saved_view && self.saved.len() == 0 {
                    "B Back"
                } else if self.saved_view {
                    "Up/Down Choose   A Connect   B Back   X Forget"
                } else if self.row == 2 && self.connected.is_some() {
                    "Up/Down Choose   A Select   B Back   X Scan   Y Disconnect"
                } else {
                    "Up/Down Choose   A Select   B Back   X Scan"
                };
                let r7 = run(owned(hint), 28, 433, 19, 584, [240, 240, 244]);
                assert(r7@.5 =~= bright());
                assert(r7@.0 == hint_line(self@));
                let ghost before_hint = runs_view(runs@);
                runs.push(r7);
                proof {
                    assert(runs_view(runs@) =~= before_hint + seq![r7@]);
                    assert(head =~= top);
                    assert(self@.editing is None);
                    assert(runs_view(runs@) =~= labels_of(self@));
                }
            },
        }
        assert(runs_view(runs@) =~= labels_of(self@));
        runs
    }

    /// The screen's raster: the ground, and the bar behind the row or key in hand. The lines
    /// of `labels` are set over it.
    pub fn face(&self) -> (face: UndoFace)
        requires
            menu_wf(self@),
        ensures
            face.w == OUT_W,
            face.h == OUT_H,
            well_formed(&face),
            forall|i: int| 0 <= i < face.rgba@.len() ==> #[trigger] face.rgba@[i] == wifi_face_byte(self@, i),
    {
        let mut face = blank_face();
        match &self.editing {
            Some(_) => {
                let x = (28 + (self.key % 10) * 58) as i32;
                let y = (190 + (self.key / 10) * 45) as i32;
                fill(&mut face, x - 3, y - 4, 48, 40, [65, 70, 85, 255]);
            },
            None => {
                let count = self.rows().len();
                if self.row < count && (!self.saved_view || self.saved.len() > 0) {
                    let first = if self.row >= 5 { self.row - 5 } else { 0 };
                    let y = (105 + (self.row - first) * 46) as i32;
                    fill(&mut face, 16, y - 3, 608, 41, [65, 70, 85, 255]);
                }
            },
        }
        face
    }
}

/// The row a scan result is listed as: its name and what its security asks for.
pub open spec fn row_label(n: NetView) -> Seq<char> {
    n.0 + "  ["@ + match n.2 {
        Security::Open => "Open"@,
        Security::Personal => "Password"@,
        Security::Unsupported => "Unsupported"@,
    } + "]"@
}

/// The rows of the list on screen.
pub open spec fn menu_rows(v: MenuView) -> Seq<Seq<char>> {
    if v.saved_view {
        if v.saved.len() == 0 {
            seq!["No saved networks"@]
        } else {
            v.saved
        }
    } else {
        seq!["Wi-Fi: "@ + (if v.enabled { "On"@ } else { "Off"@ }), "Saved networks"@] + match v.connected {
            Some(s) => seq![s + "  [Connected]"@],
            None => seq![],
        } + visible(v.networks, v.connected).map_values(|n: NetView| row_label(n))
    }
}

/// The six rows in view: the list scrolls once the row in hand is past the sixth.
pub open spec fn row_labels(v: MenuView) -> Seq<TextView> {
    let rows = menu_rows(v);
    let first = sat_sub(v.row, 5);
    let end = min_int(first + 6, rows.len() as int);
    Seq::new(
        if end > first { (end - first) as nat } else { 0 },
        |k: int| (rows[first + k], 28i32, (105 + k * 46) as i32, 22u32, 584i32, bright()),
    )
}

/// The keys of a keyboard page, ten a row; the space key reads SP.
pub open spec fn key_labels(page: int) -> Seq<TextView> {
    Seq::new(
        40,
        |i: int|
            (
                if key_page(page)[i] == ' ' { "SP"@ } else { seq![key_page(page)[i]] },
                (28 + (i % 10) * 58 + 8) as i32,
                (190 + (i / 10) * 45) as i32,
                23u32,
                40i32,
                bright(),
            ),
    )
}

/// The password as shown: a star a character, at most 24, then how many there are.
pub open spec fn masked(password: Seq<char>) -> Seq<char> {
    let n = encode_utf8(password).len();
    Seq::new(if n < 24 { n } else { 24 }, |k: int| '*') + "  ("@ + decimal(n) + " characters)"@
}

/// The legend at the foot of the list.
pub open spec fn hint_line(v: MenuView) -> Seq<char> {
    if v.busy {
        "Working...   B Back"@
    } else if v.saved_view && v.saved.len() == 0 {
        "B Back"@
    } else if v.saved_view {
        "Up/Down Choose   A Connect   B Back   X Forget"@
    } else if v.row == 2 && v.connected is Some {
        "Up/Down Choose   A Select   B Back   X Scan   Y Disconnect"@
    } else {
        "Up/Down Choose   A Select   B Back   X Scan"@
    }
}

/// Every line of type on the screen, in drawing order.
pub open spec fn labels_of(v: MenuView) -> Seq<TextView> {
    let head = seq![
        (if v.saved_view { "Saved networks"@ } else { "Wi-Fi"@ }, 28i32, 20i32, 30u32, 584i32, bright()),
        (v.status, 28i32, 63i32, 18u32, 584i32, dim()),
    ];
    match v.editing {
        Some(n) => head + seq![
            (n.0, 28i32, 99i32, 22u32, 584i32, bright()),
            (masked(v.password), 28i32, 139i32, 19u32, 584i32, dim()),
        ] + key_labels(v.page) + seq![
            ("A Type   X Erase   Y abc/ABC/123"@, 28i32, 391i32, 19u32, 584i32, dim()),
            ("START Connect   B Cancel"@, 28i32, 433i32, 19u32, 584i32, bright()),
        ],
        None => head + row_labels(v) + (if !v.saved_view {
            seq![("SFTP: port 22 | user root | your BaseOS password"@, 28i32, 391i32, 18u32, 584i32, dim())]
        } else {
            seq![]
        }) + seq![(hint_line(v), 28i32, 433i32, 19u32, 584i32, bright())],
    }
}

/// The bar behind the key or row in hand, as x, y, width and height, if one is drawn.
pub open spec fn highlight(v: MenuView) -> Option<(int, int, int, int)> {
    match v.editing {
        Some(_) => Some((28 + (v.key % 10) * 58 - 3, 190 + (v.key / 10) * 45 - 4, 48, 40)),
        None => if v.row < menu_rows(v).len() && (!v.saved_view || v.saved.len() > 0) {
            Some((16, 105 + (v.row - sat_sub(v.row, 5)) * 46 - 3, 608, 41))
        } else {
            None
        },
    }
}

/// A byte of the screen's raster: the bar's colour inside the bar, the ground elsewhere.
pub open spec fn wifi_face_byte(v: MenuView, i: int) -> u8 {
    match highlight(v) {
        Some((x, y, w, h)) => if in_rect(640, i, clip_lo(x), clip_hi(x + w, 640), clip_lo(y), clip_hi(y + h, 480)) {
            seq![65u8, 70u8, 85u8, 255u8][i % 4]
        } else {
            ground()[i % 4]
        },
        None => ground()[i % 4],
    }
}

/// Opening the screen never scans and never turns Wi-Fi on: it asks for the status at most,
/// and nothing while Wi-Fi is off or the worker is busy.
pub proof fn lemma_opening_only_checks_status(v: MenuView, sent: bool)
    ensures
        open_step(v, sent).handed == v.handed || open_step(v, sent).handed == v.handed.push(RequestView::Status),
        !v.enabled || v.busy ==> open_step(v, sent).handed == v.handed,
        open_step(v, sent).enabled == v.enabled,
        open_step(v, sent).editing is None && open_step(v, sent).password == Seq::<char>::empty(),
{
}

/// B backs out one level and asks the worker for nothing: from the keyboard to the list,
/// dropping what was typed; from the saved networks to the main list; and from there out of
/// the screen.
pub proof fn lemma_b_backs_out(v: MenuView, sent: bool)
    ensures
        ({
            let (w, leave) = input_step(v, Btn::B, sent);
            &&& w.handed == v.handed
            &&& leave <==> (v.editing is None && !v.saved_view)
            &&& v.editing is Some ==> w.editing is None && w.password == Seq::<char>::empty() && w.saved_view
                == v.saved_view
            &&& v.editing is None && v.saved_view ==> !w.saved_view && w.row == 1
        }),
{
}

/// While the worker is busy, every button but B leaves the screen as it is, but for its
/// revision.
pub proof fn lemma_busy_ignores_buttons(v: MenuView, b: Btn, sent: bool)
    requires
        v.busy,
        b != Btn::B,
    ensures
        input_step(v, b, sent) == (MenuView { revision: next_rev(v.revision), ..v }, false),
{
}

/// With Wi-Fi off, the lists never ask the worker to scan or to join a network; a button hands
/// it one request at most.
pub proof fn lemma_off_lists_never_scan_or_join(v: MenuView, b: Btn, sent: bool)
    requires
        !v.enabled,
        v.editing is None,
        v.row >= 0,
    ensures
        ({
            let w = input_step(v, b, sent).0;
            ||| w.handed == v.handed
            ||| w.handed.len() == v.handed.len() + 1 && w.handed.drop_last() == v.handed && !(w.handed.last() is Scan
                || w.handed.last() is Connect || w.handed.last() is Reconnect || w.handed.last() is ConnectSaved)
        }),
{
    let w = input_step(v, b, sent).0;
    if w.handed != v.handed {
        assert(w.handed.drop_last() =~= v.handed);
    }
}

/// The scan results the main list shows are those of the scan, in order, with the joined
/// network left out.
pub proof fn lemma_visible_leaves_out_the_joined(ns: Seq<NetView>, connected: Option<Seq<char>>)
    ensures
        visible(ns, connected) == ns.filter(|n: NetView| connected != Some(n.0)),
    decreases ns.len(),
{
    reveal(Seq::filter);
    if ns.len() > 0 {
        lemma_visible_leaves_out_the_joined(ns.drop_last(), connected);
    }
}

/// A on a network row of the main list acts on the network that row shows: after Wi-Fi on,
/// Saved networks and the joined network, row `r` is the (r - 2 - joined)th scan result with
/// the joined network left out; never the joined network itself, and its label is the row's
/// text.
pub proof fn lemma_a_acts_on_the_network_shown(v: MenuView, sent: bool)
    requires
        v.enabled,
        v.row >= 2 + (if v.connected is Some { 1int } else { 0int }),
        v.row - 2 - (if v.connected is Some { 1int } else { 0int }) < v.networks.filter(
            |n: NetView| v.connected != Some(n.0),
        ).len(),
    ensures
        ({
            let joined = if v.connected is Some { 1int } else { 0int };
            let n = v.networks.filter(|n: NetView| v.connected != Some(n.0))[v.row - 2 - joined];
            &&& main_step(v, Btn::A, sent) == choose_network(v, n, sent)
            &&& v.connected != Some(n.0)
            &&& !v.saved_view ==> menu_rows(v)[v.row] == row_label(n)
        }),
{
    let joined = if v.connected is Some { 1int } else { 0int };
    let pred = |n: NetView| v.connected != Some(n.0);
    lemma_visible_leaves_out_the_joined(v.networks, v.connected);
    let shown = v.networks.filter(pred);
    let i = v.row - 2 - joined;
    assert(visible(v.networks, v.connected) == shown);
    v.networks.lemma_filter_pred(pred, i);
    if !v.saved_view {
        let head = seq!["Wi-Fi: "@ + (if v.enabled { "On"@ } else { "Off"@ }), "Saved networks"@] + match v.connected {
            Some(s) => seq![s + "  [Connected]"@],
            None => seq![],
        };
        let tail = shown.map_values(|n: NetView| row_label(n));
        assert(menu_rows(v) == head + tail);
        assert(head.len() == 2 + joined);
        assert((head + tail)[v.row] == tail[i]);
    }
}

} // verus!
