//! The handheld's File Transfer screen: whether a server runs, what it last said, and the
//! two presses that install an uploaded test build. The server itself and the card belong to
//! the caller, which starts and stops them as this screen says.
use vstd::prelude::*;

use crate::face::{
    UndoFace, TextRun, TextView, OUT_W, OUT_H, run, runs_view, bright, dim, well_formed, blank_face, ground,
};
use crate::input::{next_rev, bump};
use crate::text::{owned, to_chars, find_chars, copy_range, split_once_seq, decimal, decimal_text};
use crate::transfer::Status;

verus! {

broadcast use vstd::string::group_string_axioms;

/// The address a Wi-Fi status gives after its ` | IP ` marker, up to the next one.
pub open spec fn ip_in_status(status: Seq<char>) -> Option<Seq<char>> {
    match split_once_seq(status, " | IP "@) {
        None => None,
        Some((_, rest)) => match split_once_seq(rest, " | IP "@) {
            Some((ip, _)) => Some(ip),
            None => Some(rest),
        },
    }
}

/// The address text in a Wi-Fi status such as `Connected | IP 192.168.1.42`.
pub fn status_ip(status: &str) -> (r: Option<String>)
    ensures
        match ip_in_status(status@) {
            Some(ip) => r matches Some(s) && s@ == ip,
            None => r is None,
        },
{
    let s = to_chars(status);
    let marker = to_chars(" | IP ");
    let i = match find_chars(s.as_slice(), marker.as_slice()) {
        Some(i) => i,
        None => return None,
    };
    let ml = marker.len();
    let sl = s.len();
    assert(i + ml <= sl);
    let from = i + ml;
    let rest = copy_range(s.as_slice(), from, sl);
    assert(rest@ =~= s@.skip(i + marker@.len()));
    match find_chars(rest.as_slice(), marker.as_slice()) {
        Some(j) => {
            let ip = copy_range(rest.as_slice(), 0, j);
            assert(ip@ =~= rest@.take(j as int));
            Some(crate::text::from_chars(ip.as_slice()))
        },
        None => Some(crate::text::from_chars(rest.as_slice())),
    }
}

/// A server that started: the address it answers at and its session code.
pub struct Serving {
    pub address: String,
    pub pin: String,
}

/// What came of starting a server: no card or no network address, a start that failed, or
/// a server running with its first status.
pub enum Launch {
    NoNetwork,
    Failed,
    Started(Serving, Status),
}

/// What a press of A on a staged build does.
pub enum BuildStep {
    /// No build is staged.
    Nothing,
    /// The screen now asks to confirm.
    Asked,
    /// Confirmed without a card: the server is to stop; nothing is installed.
    Stopped,
    /// Confirmed: the server is to stop and the staged build is to be installed, then reported
    /// with `installed_build`.
    Install,
}

/// The transfer screen.
pub struct TransferMenu {
    server: Option<Serving>,
    message: String,
    uploaded: u64,
    revision: u64,
    root: bool,
    build_ready: bool,
    confirm: bool,
    installed: bool,
}

pub struct TransferView {
    pub server: Option<(Seq<char>, Seq<char>)>,
    pub message: Seq<char>,
    pub uploaded: u64,
    pub revision: u64,
    pub root: bool,
    pub build_ready: bool,
    pub confirm: bool,
    pub installed: bool,
}

pub open spec fn serving_view(s: Option<Serving>) -> Option<(Seq<char>, Seq<char>)> {
    match s {
        Some(s) => Some((s.address@, s.pin@)),
        None => None,
    }
}

impl View for TransferMenu {
    type V = TransferView;

    closed spec fn view(&self) -> TransferView {
        TransferView {
            server: serving_view(self.server),
            message: self.message@,
            uploaded: self.uploaded,
            revision: self.revision,
            root: self.root,
            build_ready: self.build_ready,
            confirm: self.confirm,
            installed: self.installed,
        }
    }
}

/// The server's status taken in, when it says something new.
pub open spec fn poll_step(v: TransferView, s: (Seq<char>, u64, bool)) -> TransferView {
    if v.server is Some && (s.0 != v.message || s.1 != v.uploaded || s.2 != v.build_ready) {
        TransferView { message: s.0, uploaded: s.1, build_ready: s.2, revision: next_rev(v.revision), ..v }
    } else {
        v
    }
}

/// Stopping: no server, no staged build, no question pending.
pub open spec fn stop_step(v: TransferView) -> TransferView {
    TransferView { server: None, build_ready: false, confirm: false, revision: next_rev(v.revision), ..v }
}

pub open spec fn status_view(s: Status) -> (Seq<char>, u64, bool) {
    (s.message@, s.uploaded, s.build_ready)
}

/// Opening: whatever ran is stopped, then the launch's outcome is shown.
pub open spec fn open_step(v: TransferView, root: bool, launch: Launch) -> TransferView {
    let stopped = TransferView { root, installed: false, ..stop_step(v) };
    match launch {
        Launch::NoNetwork => TransferView {
            message: "Connect in Settings > Wi-Fi first, then try again."@,
            revision: next_rev(stopped.revision),
            ..stopped
        },
        Launch::Failed => TransferView {
            message: "Cannot start. Check Wi-Fi, then press A to retry."@,
            revision: next_rev(stopped.revision),
            ..stopped
        },
        Launch::Started(serving, status) => poll_step(
            TransferView {
                server: Some((serving.address@, serving.pin@)),
                revision: next_rev(stopped.revision),
                ..stopped
            },
            status_view(status),
        ),
    }
}

impl Default for TransferMenu {
    fn default() -> (m: TransferMenu)
        ensures
            m@.server is None,
            m@.message == Seq::<char>::empty(),
            m@.uploaded == 0,
            m@.revision == 1,
            !m@.root,
            !m@.build_ready,
            !m@.confirm,
            !m@.installed,
    {
        TransferMenu {
            server: None,
            message: String::new(),
            uploaded: 0,
            revision: 1,
            root: false,
            build_ready: false,
            confirm: false,
            installed: false,
        }
    }
}

impl TransferMenu {
    /// Opens the screen: `root` says whether there is a card, `launch` what came of starting
    /// the server on it. The caller has stopped any server that ran and removed an uploaded
    /// build it left.
    pub fn open(&mut self, root: bool, launch: Launch)
        ensures
            final(self)@ == open_step(old(self)@, root, launch),
    {
        self.stop();
        self.root = root;
        self.installed = false;
        match launch {
            Launch::NoNetwork => {
                self.message = owned("Connect in Settings > Wi-Fi first, then try again.");
                self.revision = bump(self.revision);
            },
            Launch::Failed => {
                self.message = owned("Cannot start. Check Wi-Fi, then press A to retry.");
                self.revision = bump(self.revision);
            },
            Launch::Started(serving, status) => {
                self.server = Some(serving);
                self.revision = bump(self.revision);
                self.poll(&status);
            },
        }
    }

    /// A server is running.
    pub fn running(&self) -> (b: bool)
        ensures
            b == self@.server is Some,
    {
        self.server.is_some()
    }

    /// A test build was installed and Slot+ is about to restart.
    pub fn installed(&self) -> (b: bool)
        ensures
            b == self@.installed,
    {
        self.installed
    }

    /// The screen asks to confirm an install.
    pub fn confirming(&self) -> (b: bool)
        ensures
            b == self@.confirm,
    {
        self.confirm
    }

    /// B while asking: the question is withdrawn.
    pub fn cancel_confirmation(&mut self)
        ensures
            final(self)@ == (TransferView { confirm: false, revision: next_rev(old(self)@.revision), ..old(self)@ }),
    {
        self.confirm = false;
        self.revision = bump(self.revision);
    }

    /// A on a staged build: the first press asks, the second stops the server and installs.
    pub fn confirm_build(&mut self) -> (step: BuildStep)
        ensures
            !old(self)@.build_ready ==> step is Nothing && final(self)@ == old(self)@,
            old(self)@.build_ready && !old(self)@.confirm ==> step is Asked && final(self)@ == (TransferView {
                confirm: true,
                revision: next_rev(old(self)@.revision),
                ..old(self)@
            }),
            old(self)@.build_ready && old(self)@.confirm && old(self)@.root ==> step is Install && final(self)@ == (
            TransferView { server: None, confirm: false, build_ready: false, ..old(self)@ }),
            old(self)@.build_ready && old(self)@.confirm && !old(self)@.root ==> step is Stopped && final(self)@ == (
            TransferView {
                server: None,
                confirm: false,
                build_ready: false,
                message: "Slot+ card is unavailable"@,
                revision: next_rev(old(self)@.revision),
                ..old(self)@
            }),
    {
        if !self.build_ready {
            return BuildStep::Nothing;
        }
        if !self.confirm {
            self.confirm = true;
            self.revision = bump(self.revision);
            return BuildStep::Asked;
        }
        self.server = None;
        self.confirm = false;
        self.build_ready = false;
        if self.root {
            BuildStep::Install
        } else {
            self.message = owned("Slot+ card is unavailable");
            self.revision = bump(self.revision);
            BuildStep::Stopped
        }
    }

    /// What installing the staged build came to.
    pub fn installed_build(&mut self, result: Result<(), String>)
        ensures
            final(self)@ == (TransferView {
                installed: old(self)@.installed || result is Ok,
                message: match result {
                    Ok(()) => "Test build installed. Restarting Slot+..."@,
                    Err(m) => m@,
                },
                revision: next_rev(old(self)@.revision),
                ..old(self)@
            }),
    {
        match result {
            Ok(()) => {
                self.installed = true;
                self.message = owned("Test build installed. Restarting Slot+...");
            },
            Err(m) => {
                self.message = m;
            },
        }
        self.revision = bump(self.revision);
    }

    /// Stops the screen's server; the caller drops it and removes any staged build.
    pub fn stop(&mut self)
        ensures
            final(self)@ == stop_step(old(self)@),
    {
        self.server = None;
        self.build_ready = false;
        self.confirm = false;
        self.revision = bump(self.revision);
    }

    /// Changes whenever the screen does.
    pub fn revision(&self) -> (r: u64)
        ensures
            r == self@.revision,
    {
        self.revision
    }

    /// Takes in the running server's status.
    pub fn poll(&mut self, status: &Status)
        ensures
            final(self)@ == poll_step(old(self)@, status_view(*status)),
    {
        if self.server.is_some() {
            let m = to_chars(self.message.as_str());
            let n = to_chars(status.message.as_str());
            if !crate::text::chars_equal(m.as_slice(), n.as_slice()) || status.uploaded != self.uploaded
                || status.build_ready != self.build_ready {
                self.message = owned(status.message.as_str());
                self.uploaded = status.uploaded;
                self.build_ready = status.build_ready;
                self.revision = bump(self.revision);
            }
        }
    }

    /// The lines of type the screen sets, in drawing order.
    pub fn labels(&self) -> (runs: Vec<TextRun>)
        ensures
            runs_view(runs@) == transfer_labels(self@),
    {
        let mut runs: Vec<TextRun> = Vec::new();
        let r0 = run(owned("File Transfer"), 28, 22, 30, 584, [240, 240, 244]);
        assert(r0@.5 =~= bright());
        runs.push(r0);
        match &self.server {
            Some(serving) => {
                let r1 = run(owned("Open this address on a device on the same Wi-Fi:"), 28, 84, 20, 584, [185, 190, 200]);
                let mut url = owned("http://");
                url.append(serving.address.as_str());
                url.append("/");
                let r2 = run(url, 28, 125, 32, 584, [240, 240, 244]);
                let r3 = run(owned("Enter this transfer code:"), 28, 193, 20, 584, [185, 190, 200]);
                let r4 = run(owned(serving.pin.as_str()), 28, 228, 44, 584, [229, 219, 191]);
                let mut count = decimal_text(self.uploaded);
                count.append(" files uploaded");
                let r5 = run(count, 28, 312, 20, 584, [185, 190, 200]);
                let note = if self.confirm {
                    "Replace Slot+ with this test build?"
                } else if self.build_ready {
                    "Test build uploaded"
                } else {
                    "Restart Slot+ after adding games or labels."
                };
                let r6 = run(owned(note), 28, 389, 19, 584, [185, 190, 200]);
                let hint = if self.confirm {
                    "A Confirm   B Cancel"
                } else if self.build_ready {
                    "A Review install   B Back"
                } else {
                    "B Stop & back"
                };
                let r7 = run(owned(hint), 28, 433, 20, 584, [240, 240, 244]);
                assert(r1@.5 =~= dim() && r3@.5 =~= dim() && r5@.5 =~= dim() && r6@.5 =~= dim());
                assert(r2@.5 =~= bright() && r7@.5 =~= bright());
                assert(r4@.5 =~= seq![229u8, 219u8, 191u8]);
                runs.push(r1);
                runs.push(r2);
                runs.push(r3);
                runs.push(r4);
                runs.push(r5);
                runs.push(r6);
                runs.push(r7);
            },
            None => {
                let r = run(owned("A Retry   B Back"), 28, 433, 20, 584, [240, 240, 244]);
                assert(r@.5 =~= bright());
                runs.push(r);
            },
        }
        let ghost before = runs_view(runs@);
        let last = run(owned(self.message.as_str()), 28, 352, 19, 584, [185, 190, 200]);
        assert(last@.5 =~= dim());
        runs.push(last);
        assert(runs_view(runs@) =~= before.push(last@));
        assert(runs_view(runs@) =~= transfer_labels(self@));
        runs
    }

    /// The screen's raster: the ground the lines of `labels` are set on.
    pub fn face(&self) -> (face: UndoFace)
        ensures
            face.w == OUT_W,
            face.h == OUT_H,
            well_formed(&face),
            forall|i: int| 0 <= i < face.rgba@.len() ==> #[trigger] face.rgba@[i] == ground()[i % 4],
    {
        blank_face()
    }
}

/// Every line of type on the transfer screen, in drawing order.
pub open spec fn transfer_labels(v: TransferView) -> Seq<TextView> {
    seq![("File Transfer"@, 28i32, 22i32, 30u32, 584i32, bright())] + match v.server {
        Some((address, pin)) => seq![
            ("Open this address on a device on the same Wi-Fi:"@, 28i32, 84i32, 20u32, 584i32, dim()),
            ("http://"@ + address + "/"@, 28i32, 125i32, 32u32, 584i32, bright()),
            ("Enter this transfer code:"@, 28i32, 193i32, 20u32, 584i32, dim()),
            (pin, 28i32, 228i32, 44u32, 584i32, seq![229u8, 219u8, 191u8]),
            (decimal(v.uploaded as nat) + " files uploaded"@, 28i32, 312i32, 20u32, 584i32, dim()),
            (
                if v.confirm {
                    "Replace Slot+ with this test build?"@
                } else if v.build_ready {
                    "Test build uploaded"@
                } else {
                    "Restart Slot+ after adding games or labels."@
                },
                28i32,
                389i32,
                19u32,
                584i32,
                dim(),
            ),
            (
                if v.confirm {
                    "A Confirm   B Cancel"@
                } else if v.build_ready {
                    "A Review install   B Back"@
                } else {
                    "B Stop & back"@
                },
                28i32,
                433i32,
                20u32,
                584i32,
                bright(),
            ),
        ],
        None => seq![("A Retry   B Back"@, 28i32, 433i32, 20u32, 584i32, bright())],
    } + seq![(v.message, 28i32, 352i32, 19u32, 584i32, dim())]
}

} // verus!
