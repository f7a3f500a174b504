//! The browser transfer server's rules: which requests are answered and how, which folders
//! and names a request may touch, and the bytes of every reply. Sockets, the card and the
//! clock stay with the caller, which hands over what it read and does what it is told.
use vstd::prelude::*;
use vstd::utf8::*;
use vstd::string::StringSliceAdditionalSpecFns;

use crate::text::{
    bytes_equal, owned, from_chars, to_chars, chars_are, copy_range, is_control, char_is_control, is_hex_byte,
    hex_value, hex_digit, string_from_utf8, split, split_once, split_char, split_once_char,
};

verus! {

broadcast use vstd::string::group_string_axioms;

/// The largest file a transfer may carry: 128 MiB.
pub const MAX_FILE: u64 = 128 * 1024 * 1024;

/// The longest request head read before the request is refused.
pub const HEAD_LIMIT: usize = 16384;

/// What the handheld's transfer screen shows of the server: its last message, how many
/// uploads it has published, and whether a test build is staged.
#[derive(Clone)]
pub struct Status {
    pub message: String,
    pub uploaded: u64,
    pub build_ready: bool,
}

impl Default for Status {
    fn default() -> (s: Status)
        ensures
            s.message@ == Seq::<char>::empty(),
            s.uploaded == 0,
            !s.build_ready,
    {
        Status { message: String::new(), uploaded: 0, build_ready: false }
    }
}

impl Status {
    /// A server that has just started.
    pub fn ready() -> (s: Status)
        ensures
            s.message@ == "Ready for your browser"@,
            s.uploaded == 0,
            !s.build_ready,
    {
        Status { message: owned("Ready for your browser"), uploaded: 0, build_ready: false }
    }

    /// An upload of `name` is being received.
    pub fn receiving(&mut self, name: &str)
        ensures
            final(self).message@ == "Receiving "@ + name@,
            final(self).uploaded == old(self).uploaded,
            final(self).build_ready == old(self).build_ready,
    {
        let mut m = owned("Receiving ");
        m.append(name);
        self.message = m;
    }

    /// An upload stopped before it was complete.
    pub fn interrupted(&mut self)
        ensures
            final(self).message@ == "Upload interrupted; original file preserved"@,
            final(self).uploaded == old(self).uploaded,
            final(self).build_ready == old(self).build_ready,
    {
        self.message = owned("Upload interrupted; original file preserved");
    }

    /// An upload of `name` was published: one more counted.
    pub fn saved(&mut self, name: &str)
        requires
            old(self).uploaded < u64::MAX,
        ensures
            final(self).message@ == "Saved "@ + name@,
            final(self).uploaded == old(self).uploaded + 1,
            final(self).build_ready == old(self).build_ready,
    {
        let mut m = owned("Saved ");
        m.append(name);
        self.message = m;
        self.uploaded = self.uploaded + 1;
    }

    /// A test build is being received.
    pub fn receiving_build(&mut self)
        ensures
            final(self).message@ == "Receiving test build"@,
            final(self).uploaded == old(self).uploaded,
            final(self).build_ready == old(self).build_ready,
    {
        self.message = owned("Receiving test build");
    }

    /// A test build stopped before it was complete.
    pub fn build_interrupted(&mut self)
        ensures
            final(self).message@ == "Test build upload interrupted"@,
            final(self).uploaded == old(self).uploaded,
            final(self).build_ready == old(self).build_ready,
    {
        self.message = owned("Test build upload interrupted");
    }

    /// A received test build was refused, for the reason given.
    pub fn build_refused(&mut self, reason: &str)
        ensures
            final(self).message@ == reason@,
            final(self).uploaded == old(self).uploaded,
            final(self).build_ready == old(self).build_ready,
    {
        self.message = owned(reason);
    }

    /// A test build is staged and waits for the handheld to confirm it.
    pub fn build_staged(&mut self)
        ensures
            final(self).message@ == "Test build ready. Confirm on handheld."@,
            final(self).uploaded == old(self).uploaded,
            final(self).build_ready,
    {
        self.message = owned("Test build ready. Confirm on handheld.");
        self.build_ready = true;
    }
}

/// Every request the server answers with an error, each with its status code and the message
/// the page shows.
pub enum Refusal {
    HeadTooLarge,
    Invalid,
    WrongHost,
    WrongOrigin,
    NoLength,
    BadLength,
    TooManyCodes,
    WrongCode,
    NotFound,
    BadQuery,
    NoFolder,
    Unreadable,
    UnsafeName,
    NotRegular,
    Missing,
    Empty,
    TooLarge,
    WrongType,
    Exists,
    NoSpace,
    Interrupted,
    Changed,
    NotSaved,
    Unsupported,
    BuildSize,
    NoSystem,
    BuildInterrupted,
    BuildInvalid(String),
    BuildNotSaved,
}

/// A refusal as the specifications see it: its code and its message.
pub open spec fn refusal_code(r: Refusal) -> u16 {
    match r {
        Refusal::HeadTooLarge => 400,
        Refusal::Invalid => 400,
        Refusal::WrongHost => 403,
        Refusal::WrongOrigin => 403,
        Refusal::NoLength => 400,
        Refusal::BadLength => 400,
        Refusal::TooManyCodes => 429,
        Refusal::WrongCode => 401,
        Refusal::NotFound => 404,
        Refusal::BadQuery => 400,
        Refusal::NoFolder => 403,
        Refusal::Unreadable => 500,
        Refusal::UnsafeName => 400,
        Refusal::NotRegular => 403,
        Refusal::Missing => 404,
        Refusal::Empty => 400,
        Refusal::TooLarge => 413,
        Refusal::WrongType => 400,
        Refusal::Exists => 409,
        Refusal::NoSpace => 500,
        Refusal::Interrupted => 500,
        Refusal::Changed => 409,
        Refusal::NotSaved => 500,
        Refusal::Unsupported => 400,
        Refusal::BuildSize => 413,
        Refusal::NoSystem => 403,
        Refusal::BuildInterrupted => 500,
        Refusal::BuildInvalid(_) => 400,
        Refusal::BuildNotSaved => 500,
    }
}

pub open spec fn refusal_message(r: Refusal) -> Seq<char> {
    match r {
        Refusal::HeadTooLarge => "Request headers are too large"@,
        Refusal::Invalid => "Invalid request"@,
        Refusal::WrongHost => "Open the address shown on Slot"@,
        Refusal::WrongOrigin => "Use the Slot transfer page"@,
        Refusal::NoLength => "A file size is required"@,
        Refusal::BadLength => "Invalid file size"@,
        Refusal::TooManyCodes => "Too many incorrect codes. Wait 30 seconds and try again."@,
        Refusal::WrongCode => "Enter the eight-digit code shown on your handheld"@,
        Refusal::NotFound => "Not found"@,
        Refusal::BadQuery => "Invalid filename"@,
        Refusal::NoFolder => "Choose a game, label or BIOS folder"@,
        Refusal::Unreadable => "Cannot read this folder"@,
        Refusal::UnsafeName => "Use a filename without folders or special path characters"@,
        Refusal::NotRegular => "This is not a regular file"@,
        Refusal::Missing => "File not found"@,
        Refusal::Empty => "The file is empty"@,
        Refusal::TooLarge => "Files must be 128 MB or smaller"@,
        Refusal::WrongType => "This file type does not belong in the selected folder"@,
        Refusal::Exists => "A file with this name already exists"@,
        Refusal::NoSpace => "Cannot create upload; check free space on the SD card"@,
        Refusal::Interrupted => "Upload interrupted or SD card full; original file preserved"@,
        Refusal::Changed => "Destination changed; please try again"@,
        Refusal::NotSaved => "Could not save the file on the SD card"@,
        Refusal::Unsupported => "Unsupported request"@,
        Refusal::BuildSize => "Choose a nonempty Slot binary up to 128 MB"@,
        Refusal::NoSystem => "Slot System folder is unavailable"@,
        Refusal::BuildInterrupted => "Upload interrupted; try again"@,
        Refusal::BuildInvalid(m) => m@,
        Refusal::BuildNotSaved => "Could not save test build"@,
    }
}

impl Refusal {
    /// The HTTP status the refusal is answered with.
    pub fn code(&self) -> (c: u16)
        ensures
            c == refusal_code(*self),
    {
        match self {
            Refusal::HeadTooLarge => 400,
            Refusal::Invalid => 400,
            Refusal::WrongHost => 403,
            Refusal::WrongOrigin => 403,
            Refusal::NoLength => 400,
            Refusal::BadLength => 400,
            Refusal::TooManyCodes => 429,
            Refusal::WrongCode => 401,
            Refusal::NotFound => 404,
            Refusal::BadQuery => 400,
            Refusal::NoFolder => 403,
            Refusal::Unreadable => 500,
            Refusal::UnsafeName => 400,
            Refusal::NotRegular => 403,
            Refusal::Missing => 404,
            Refusal::Empty => 400,
            Refusal::TooLarge => 413,
            Refusal::WrongType => 400,
            Refusal::Exists => 409,
            Refusal::NoSpace => 500,
            Refusal::Interrupted => 500,
            Refusal::Changed => 409,
            Refusal::NotSaved => 500,
            Refusal::Unsupported => 400,
            Refusal::BuildSize => 413,
            Refusal::NoSystem => 403,
            Refusal::BuildInterrupted => 500,
            Refusal::BuildInvalid(_) => 400,
            Refusal::BuildNotSaved => 500,
        }
    }

    /// The message the page shows for the refusal.
    pub fn message(&self) -> (m: String)
        ensures
            m@ == refusal_message(*self),
    {
        match self {
            Refusal::HeadTooLarge => owned("Request headers are too large"),
            Refusal::Invalid => owned("Invalid request"),
            Refusal::WrongHost => owned("Open the address shown on Slot"),
            Refusal::WrongOrigin => owned("Use the Slot transfer page"),
            Refusal::NoLength => owned("A file size is required"),
            Refusal::BadLength => owned("Invalid file size"),
            Refusal::TooManyCodes => owned("Too many incorrect codes. Wait 30 seconds and try again."),
            Refusal::WrongCode => owned("Enter the eight-digit code shown on your handheld"),
            Refusal::NotFound => owned("Not found"),
            Refusal::BadQuery => owned("Invalid filename"),
            Refusal::NoFolder => owned("Choose a game, label or BIOS folder"),
            Refusal::Unreadable => owned("Cannot read this folder"),
            Refusal::UnsafeName => owned("Use a filename without folders or special path characters"),
            Refusal::NotRegular => owned("This is not a regular file"),
            Refusal::Missing => owned("File not found"),
            Refusal::Empty => owned("The file is empty"),
            Refusal::TooLarge => owned("Files must be 128 MB or smaller"),
            Refusal::WrongType => owned("This file type does not belong in the selected folder"),
            Refusal::Exists => owned("A file with this name already exists"),
            Refusal::NoSpace => owned("Cannot create upload; check free space on the SD card"),
            Refusal::Interrupted => owned("Upload interrupted or SD card full; original file preserved"),
            Refusal::Changed => owned("Destination changed; please try again"),
            Refusal::NotSaved => owned("Could not save the file on the SD card"),
            Refusal::Unsupported => owned("Unsupported request"),
            Refusal::BuildSize => owned("Choose a nonempty Slot binary up to 128 MB"),
            Refusal::NoSystem => owned("Slot System folder is unavailable"),
            Refusal::BuildInterrupted => owned("Upload interrupted; try again"),
            Refusal::BuildInvalid(m) => m.clone(),
            Refusal::BuildNotSaved => owned("Could not save test build"),
        }
    }
}

// ---------------------------------------------------------------------------------------------
// Folders and names.
// ---------------------------------------------------------------------------------------------

/// The folders a transfer may list, read or write, relative to the card.
pub open spec fn is_folder(d: Seq<char>) -> bool {
    ||| d == "Games/GBA"@
    ||| d == "Games/GB"@
    ||| d == "Games/GBC"@
    ||| d == "Labels/GBA"@
    ||| d == "Labels/GB"@
    ||| d == "Labels/GBC"@
    ||| d == "BIOS"@
}

/// The transfer folders, in the order the page offers them.
pub fn folders() -> (f: [&'static str; 7])
    ensures
        forall|i: int| 0 <= i < 7 ==> is_folder(#[trigger] f@[i]@),
        f@[0]@ == "Games/GBA"@,
        f@[1]@ == "Games/GB"@,
        f@[2]@ == "Games/GBC"@,
        f@[3]@ == "Labels/GBA"@,
        f@[4]@ == "Labels/GB"@,
        f@[5]@ == "Labels/GBC"@,
        f@[6]@ == "BIOS"@,
{
    ["Games/GBA", "Games/GB", "Games/GBC", "Labels/GBA", "Labels/GB", "Labels/GBC", "BIOS"]
}

/// The place of a transfer folder in `folders()`, or -1 for any other name.
pub open spec fn folder_index(d: Seq<char>) -> int {
    if d == "Games/GBA"@ {
        0
    } else if d == "Games/GB"@ {
        1
    } else if d == "Games/GBC"@ {
        2
    } else if d == "Labels/GBA"@ {
        3
    } else if d == "Labels/GB"@ {
        4
    } else if d == "Labels/GBC"@ {
        5
    } else if d == "BIOS"@ {
        6
    } else {
        -1
    }
}

/// `d` is a transfer folder that stands on the card, where `present` says, for each folder of
/// `folders()` in order, whether it is a real folder on the card; a folder past its end is
/// not there.
pub open spec fn on_card(d: Seq<char>, present: Seq<bool>) -> bool {
    &&& 0 <= folder_index(d) < present.len()
    &&& present[folder_index(d)]
}

/// Whether `dir` is a transfer folder that stands on the card; see `on_card`.
pub fn folder_on_card(dir: &[char], present: &[bool]) -> (b: bool)
    ensures
        b == on_card(dir@, present@),
{
    let i: usize = if chars_are(dir, "Games/GBA") {
        0
    } else if chars_are(dir, "Games/GB") {
        1
    } else if chars_are(dir, "Games/GBC") {
        2
    } else if chars_are(dir, "Labels/GBA") {
        3
    } else if chars_are(dir, "Labels/GB") {
        4
    } else if chars_are(dir, "Labels/GBC") {
        5
    } else if chars_are(dir, "BIOS") {
        6
    } else {
        return false;
    };
    i < present.len() && present[i]
}

/// Whether `dir` names one of the transfer folders.
pub fn in_folders(dir: &[char]) -> (b: bool)
    ensures
        b == is_folder(dir@),
{
    chars_are(dir, "Games/GBA") || chars_are(dir, "Games/GB") || chars_are(dir, "Games/GBC")
        || chars_are(dir, "Labels/GBA") || chars_are(dir, "Labels/GB") || chars_are(dir, "Labels/GBC")
        || chars_are(dir, "BIOS")
}

/// The characters a file name may not hold besides control characters: path separators and
/// the characters other systems forbid.
pub open spec fn is_reserved(c: char) -> bool {
    c == '/' || c == '\\' || c == ':' || c == '*' || c == '?' || c == '"' || c == '<' || c == '>'
        || c == '|'
}

/// A name a transfer may use: not empty, at most 240 bytes, not hidden, not ending in a dot or
/// a space, and free of control and reserved characters.
pub open spec fn safe_name(name: Seq<char>) -> bool {
    &&& name.len() > 0
    &&& encode_utf8(name).len() <= 240
    &&& name[0] != '.'
    &&& name.last() != '.'
    &&& name.last() != ' '
    &&& forall|i: int| 0 <= i < name.len() ==> !is_control(#[trigger] name[i]) && !is_reserved(name[i])
}

/// Whether `name` is safe to use as a file name in a transfer folder.
pub fn filename(name: &str) -> (b: bool)
    ensures
        b == safe_name(name@),
{
    let chars = to_chars(name);
    let n = chars.len();
    if n == 0 || name.as_bytes().len() > 240 || chars[0] == '.' || chars[n - 1] == '.' || chars[n - 1] == ' ' {
        return false;
    }
    let mut i: usize = 0;
    while i < n
        invariant
            n == chars@.len(),
            chars@ == name@,
            i <= n,
            forall|j: int| 0 <= j < i ==> !is_control(#[trigger] chars@[j]) && !is_reserved(chars@[j]),
        decreases n - i,
    {
        let c = chars[i];
        if char_is_control(c) || c == '/' || c == '\\' || c == ':' || c == '*' || c == '?' || c == '"'
            || c == '<' || c == '>' || c == '|' {
            return false;
        }
        i += 1;
    }
    true
}

/// The part of `s` after its last `x`: all of it when there is none, as `rsplit` yields first.
pub open spec fn after_last<A>(s: Seq<A>, x: A) -> Seq<A>
    decreases s.len(),
{
    if s.len() == 0 {
        s
    } else if s.last() == x {
        seq![]
    } else {
        after_last(s.drop_last(), x).push(s.last())
    }
}

/// A character's code with ASCII capitals taken to their small letters.
pub open spec fn lower_code(c: char) -> u32 {
    if 65 <= (c as u32) <= 90 {
        (c as u32 + 32) as u32
    } else {
        c as u32
    }
}

/// `a` with ASCII capitals lowered is exactly `b`.
pub open spec fn lowered_is(a: Seq<char>, b: Seq<char>) -> bool {
    a.len() == b.len() && forall|i: int| 0 <= i < a.len() ==> lower_code(#[trigger] a[i]) == b[i] as u32
}

/// The extension each folder takes, in small letters.
pub open spec fn folder_extension(dir: Seq<char>) -> Seq<char> {
    if dir == "Games/GBA"@ {
        "gba"@
    } else if dir == "Games/GB"@ {
        "gb"@
    } else if dir == "Games/GBC"@ {
        "gbc"@
    } else if dir == "BIOS"@ {
        "bin"@
    } else {
        "png"@
    }
}

/// A file may go into a folder when the text after its last dot, in any case, is the
/// folder's extension.
pub open spec fn extension_fits(dir: Seq<char>, name: Seq<char>) -> bool {
    lowered_is(after_last(name, '.'), folder_extension(dir))
}

fn lower_of(c: char) -> (r: u32)
    ensures
        r == lower_code(c),
{
    let code = c as u32;
    if 65 <= code && code <= 90 {
        code + 32
    } else {
        code
    }
}

/// Whether `a` lowered is the literal `lit`.
fn lowered_equals(a: &[char], lit: &str) -> (r: bool)
    ensures
        r == lowered_is(a@, lit@),
{
    let l = to_chars(lit);
    if a.len() != l.len() {
        return false;
    }
    let mut i: usize = 0;
    while i < a.len()
        invariant
            a@.len() == l@.len(),
            l@ == lit@,
            i <= a@.len(),
            forall|j: int| 0 <= j < i ==> lower_code(#[trigger] a@[j]) == l@[j] as u32,
        decreases a@.len() - i,
    {
        if lower_of(a[i]) != l[i] as u32 {
            return false;
        }
        i += 1;
    }
    true
}

proof fn lemma_after_last_at<A>(s: Seq<A>, x: A, k: int)
    requires
        -1 <= k < s.len(),
        k >= 0 ==> s[k] == x,
        forall|j: int| k < j < s.len() ==> s[j] != x,
    ensures
        after_last(s, x) == s.skip(k + 1),
    decreases s.len(),
{
    if s.len() == 0 {
        assert(s.skip(k + 1) =~= s);
    } else if k == s.len() - 1 {
        assert(s.skip(k + 1) =~= seq![]);
    } else {
        let t = s.drop_last();
        assert forall|j: int| k < j < t.len() implies t[j] != x by {
            assert(t[j] == s[j]);
        }
        if k >= 0 {
            assert(t[k] == s[k]);
        }
        lemma_after_last_at(t, x, k);
        assert(t.skip(k + 1).push(s.last()) =~= s.skip(k + 1));
    }
}

/// Whether `name` has the extension `dir` takes.
pub fn extension(dir: &str, name: &str) -> (b: bool)
    ensures
        b == extension_fits(dir@, name@),
{
    let chars = to_chars(name);
    let mut k = chars.len();
    while k > 0 && chars[k - 1] != '.'
        invariant
            k <= chars@.len(),
            forall|j: int| k <= j < chars@.len() ==> chars@[j] != '.',
        decreases k,
    {
        k -= 1;
    }
    proof {
        lemma_after_last_at(chars@, '.', k - 1);
    }
    let ext = copy_range(chars.as_slice(), k, chars.len());
    assert(ext@ =~= chars@.skip(k as int));
    let d = to_chars(dir);
    if chars_are(d.as_slice(), "Games/GBA") {
        lowered_equals(ext.as_slice(), "gba")
    } else if chars_are(d.as_slice(), "Games/GB") {
        lowered_equals(ext.as_slice(), "gb")
    } else if chars_are(d.as_slice(), "Games/GBC") {
        lowered_equals(ext.as_slice(), "gbc")
    } else if chars_are(d.as_slice(), "BIOS") {
        lowered_equals(ext.as_slice(), "bin")
    } else {
        lowered_equals(ext.as_slice(), "png")
    }
}

// ---------------------------------------------------------------------------------------------
// Query strings.
// ---------------------------------------------------------------------------------------------

/// Form decoding of bytes: `%` and two hexadecimal digits is the byte they spell, `+` is a
/// space, anything else stands for itself; a `%` without two digits after it fails.
pub open spec fn percent_decode(b: Seq<u8>) -> Option<Seq<u8>>
    decreases b.len(),
{
    if b.len() == 0 {
        Some(seq![])
    } else if b[0] == 37 {
        if b.len() >= 3 && is_hex_byte(b[1]) && is_hex_byte(b[2]) {
            match percent_decode(b.skip(3)) {
                Some(r) => Some(seq![(hex_value(b[1]) * 16 + hex_value(b[2])) as u8] + r),
                None => None,
            }
        } else {
            None
        }
    } else {
        match percent_decode(b.skip(1)) {
            Some(r) => Some(seq![if b[0] == 43 { 32u8 } else { b[0] }] + r),
            None => None,
        }
    }
}

/// A query component decoded: its bytes form-decoded, when they then spell UTF-8.
pub open spec fn decode_text(t: Seq<char>) -> Option<Seq<char>> {
    match percent_decode(encode_utf8(t)) {
        Some(b) => if valid_utf8(b) {
            Some(decode_utf8(b))
        } else {
            None
        },
        None => None,
    }
}

/// A query component, decoded.
pub fn decode(text: &str) -> (r: Option<String>)
    ensures
        match decode_text(text@) {
            Some(t) => r matches Some(s) && s@ == t,
            None => r is None,
        },
{
    let bytes = text.as_bytes();
    let ghost b = bytes@;
    assert(b == encode_utf8(text@));
    let mut out: Vec<u8> = Vec::new();
    let mut i: usize = 0;
    proof {
        assert(b.skip(0) =~= b);
        match percent_decode(b) {
            Some(r) => assert(out@ + r =~= r),
            None => {},
        }
    }
    while i < bytes.len()
        invariant
            b == bytes@,
            b == encode_utf8(text@),
            i <= b.len(),
            percent_decode(b) == match percent_decode(b.skip(i as int)) {
                Some(r) => Some(out@ + r),
                None => None,
            },
        decreases b.len() - i,
    {
        let c = bytes[i];
        let ghost rest = b.skip(i as int);
        assert(rest[0] == c);
        assert(rest.len() == b.len() - i);
        if c == 37 {
            if bytes.len() - i > 2 {
                match (hex_digit(bytes[i + 1]), hex_digit(bytes[i + 2])) {
                    (Some(h), Some(l)) => {
                        proof {
                            assert(rest[1] == b[i + 1]);
                            assert(rest[2] == b[i + 2]);
                            assert(rest.skip(3) =~= b.skip(i + 3));
                        }
                        let v: u8 = h * 16 + l;
                        let ghost before = out@;
                        out.push(v);
                        proof {
                            match percent_decode(b.skip(i + 3)) {
                                Some(r) => assert(before + (seq![v] + r) =~= out@ + r),
                                None => {},
                            }
                        }
                        i += 3;
                    },
                    _ => {
                        proof {
                            assert(rest[1] == b[i + 1]);
                            assert(rest[2] == b[i + 2]);
                            assert(percent_decode(rest) is None);
                        }
                        return None;
                    },
                }
            } else {
                assert(percent_decode(rest) is None);
                return None;
            }
        } else {
            proof {
                assert(rest.skip(1) =~= b.skip(i + 1));
            }
            let v: u8 = if c == 43 { 32 } else { c };
            let ghost before = out@;
            out.push(v);
            proof {
                match percent_decode(b.skip(i + 1)) {
                    Some(r) => assert(before + (seq![v] + r) =~= out@ + r),
                    None => {},
                }
            }
            i += 1;
        }
    }
    proof {
        assert(b.skip(i as int) =~= seq![]);
        assert(out@ + seq![] =~= out@);
    }
    string_from_utf8(out)
}

/// Whether `key` is among the keys of `pairs`.
pub open spec fn has_key(pairs: Seq<(Seq<char>, Seq<char>)>, key: Seq<char>) -> bool {
    exists|i: int| 0 <= i < pairs.len() && (#[trigger] pairs[i]).0 == key
}

/// One more piece of a query, `key=value`, after the pairs read so far: both sides decoded;
/// `None` when it has no `=`, a side does not decode, or its key was seen.
pub open spec fn query_step(acc: Seq<(Seq<char>, Seq<char>)>, piece: Seq<char>) -> Option<Seq<(Seq<char>, Seq<char>)>> {
    match split_once(piece, '=') {
        None => None,
        Some((k, v)) => match decode_text(k) {
            None => None,
            Some(key) => if has_key(acc, key) {
                None
            } else {
                match decode_text(v) {
                    None => None,
                    Some(value) => Some(acc.push((key, value))),
                }
            },
        },
    }
}

/// The pairs of a query's pieces, read in order.
pub open spec fn query_pairs(pieces: Seq<Seq<char>>) -> Option<Seq<(Seq<char>, Seq<char>)>>
    decreases pieces.len(),
{
    if pieces.len() == 0 {
        Some(seq![])
    } else {
        match query_pairs(pieces.drop_last()) {
            None => None,
            Some(acc) => query_step(acc, pieces.last()),
        }
    }
}

/// A query whose first pieces already fail fails whatever follows them.
proof fn lemma_query_pairs_prefix(pieces: Seq<Seq<char>>, i: int)
    requires
        0 <= i <= pieces.len(),
        query_pairs(pieces.take(i)) is None,
    ensures
        query_pairs(pieces) is None,
    decreases pieces.len() - i,
{
    if i < pieces.len() {
        assert(pieces.take(i + 1).drop_last() =~= pieces.take(i));
        lemma_query_pairs_prefix(pieces, i + 1);
    } else {
        assert(pieces.take(i) =~= pieces);
    }
}

/// A query string, `&`-separated.
pub open spec fn query_of(text: Seq<char>) -> Option<Seq<(Seq<char>, Seq<char>)>> {
    query_pairs(split(text, '&'))
}

pub open spec fn pairs_view(v: Seq<(String, String)>) -> Seq<(Seq<char>, Seq<char>)> {
    v.map_values(|p: (String, String)| (p.0@, p.1@))
}

fn find_key(pairs: &Vec<(String, String)>, key: &str) -> (b: bool)
    ensures
        b == has_key(pairs_view(pairs@), key@),
{
    let k = to_chars(key);
    let mut i: usize = 0;
    while i < pairs.len()
        invariant
            i <= pairs@.len(),
            k@ == key@,
            forall|j: int| 0 <= j < i ==> (#[trigger] pairs_view(pairs@)[j]).0 != key@,
        decreases pairs@.len() - i,
    {
        let c = to_chars(pairs[i].0.as_str());
        if crate::text::chars_equal(c.as_slice(), k.as_slice()) {
            assert(pairs_view(pairs@)[i as int].0 == key@);
            return true;
        }
        assert(pairs_view(pairs@)[i as int].0 != key@);
        i += 1;
    }
    false
}

fn query_piece(piece: &[char], acc: &Vec<(String, String)>) -> (r: Option<(String, String)>)
    ensures
        match query_step(pairs_view(acc@), piece@) {
            Some(ps) => r matches Some(p) && ps == pairs_view(acc@).push((p.0@, p.1@)),
            None => r is None,
        },
{
    let (k, v) = match split_once_char(piece, '=') {
        Some(kv) => kv,
        None => return None,
    };
    let key = match decode(from_chars(k.as_slice()).as_str()) {
        Some(key) => key,
        None => return None,
    };
    if find_key(acc, key.as_str()) {
        return None;
    }
    let value = match decode(from_chars(v.as_slice()).as_str()) {
        Some(value) => value,
        None => return None,
    };
    Some((key, value))
}

/// The decoded pairs of a query string; `None` when it is malformed or repeats a key.
pub fn query(text: &str) -> (r: Option<Vec<(String, String)>>)
    ensures
        match query_of(text@) {
            Some(ps) => r matches Some(v) && pairs_view(v@) == ps,
            None => r is None,
        },
{
    let chars = to_chars(text);
    let pieces = split_char(chars.as_slice(), '&');
    let ghost all = pieces@.map_values(|v: Vec<char>| v@);
    assert(all == split(text@, '&'));
    let mut result: Vec<(String, String)> = Vec::new();
    let mut i: usize = 0;
    while i < pieces.len()
        invariant
            i <= pieces@.len(),
            all == pieces@.map_values(|v: Vec<char>| v@),
            all == split(text@, '&'),
            query_pairs(all.take(i as int)) == Some(pairs_view(result@)),
        decreases pieces@.len() - i,
    {
        proof {
            assert(all.take(i + 1).drop_last() =~= all.take(i as int));
            assert(all.take(i + 1).last() == pieces@[i as int]@);
        }
        let (key, value) = match query_piece(pieces[i].as_slice(), &result) {
            Some(p) => p,
            None => {
                proof {
                    lemma_query_pairs_prefix(all, i + 1);
                }
                return None;
            },
        };
        let ghost before = pairs_view(result@);
        result.push((key, value));
        assert(pairs_view(result@) =~= before.push((key@, value@)));
        i += 1;
    }
    assert(all.take(pieces@.len() as int) =~= all);
    Some(result)
}

// ---------------------------------------------------------------------------------------------
// Request heads.
// ---------------------------------------------------------------------------------------------

/// The end of a request head in what has been read: just past the first blank line.
pub open spec fn head_end_of(bytes: Seq<u8>) -> Option<int> {
    let i = crate::text::find_seq(bytes, seq![13u8, 10u8, 13u8, 10u8]);
    if 0 <= i && i + 4 <= bytes.len() {
        Some(i + 4)
    } else {
        None
    }
}

/// Where the head read so far ends, if it has.
pub fn head_end(bytes: &[u8]) -> (r: Option<usize>)
    ensures
        match head_end_of(bytes@) {
            Some(e) => r == Some(e as usize),
            None => r is None,
        },
{
    let ghost pat = seq![13u8, 10u8, 13u8, 10u8];
    let n = bytes.len();
    let mut i: usize = 0;
    while n >= 4 && i <= n - 4
        invariant
            n == bytes@.len(),
            i <= n,
            pat == seq![13u8, 10u8, 13u8, 10u8],
            forall|j: int| 0 <= j < i ==> !crate::text::has_prefix(#[trigger] bytes@.skip(j), pat),
        decreases n - i,
    {
        let ghost t = bytes@.skip(i as int);
        assert(t[0] == bytes@[i as int] && t[1] == bytes@[i + 1] && t[2] == bytes@[i + 2] && t[3] == bytes@[i + 3]);
        if bytes[i] == 13 && bytes[i + 1] == 10 && bytes[i + 2] == 13 && bytes[i + 3] == 10 {
            proof {
                assert(t.take(4) =~= pat);
                crate::text::lemma_find_seq_at(bytes@, pat, i as int);
            }
            return Some(i + 4);
        }
        proof {
            if crate::text::has_prefix(t, pat) {
                assert(t.take(4)[0] == pat[0] && t.take(4)[1] == pat[1]);
                assert(t.take(4)[2] == pat[2] && t.take(4)[3] == pat[3]);
            }
        }
        i += 1;
    }
    proof {
        assert forall|j: int| 0 <= j <= bytes@.len() implies !crate::text::has_prefix(#[trigger] bytes@.skip(j), pat) by {
            if j >= i {
                assert(bytes@.skip(j).len() < 4);
            }
        }
        crate::text::lemma_find_seq_none(bytes@, pat);
    }
    None
}

/// A request head: method, target and headers as the HTTP parser read them.
pub struct Head {
    pub method: Option<String>,
    pub path: Option<String>,
    pub headers: Vec<(String, Vec<u8>)>,
}

pub open spec fn opt_text(o: Option<String>) -> Option<Seq<char>> {
    match o {
        Some(s) => Some(s@),
        None => None,
    }
}

pub open spec fn fields_view(v: Seq<(String, Vec<u8>)>) -> Seq<(Seq<char>, Seq<u8>)> {
    v.map_values(|f: (String, Vec<u8>)| (f.0@, f.1@))
}

pub open spec fn head_view(h: Option<Head>) -> Option<(Option<Seq<char>>, Option<Seq<char>>, Seq<(Seq<char>, Seq<u8>)>)> {
    match h {
        Some(h) => Some((opt_text(h.method), opt_text(h.path), fields_view(h.headers@))),
        None => None,
    }
}

/// What `httparse::Request::parse`, given 48 header slots, reads from a head: the method, the
/// target and each header's name and value when the head is complete and well formed.
pub uninterp spec fn http_request_head(bytes: Seq<u8>) -> Option<(Option<Seq<char>>, Option<Seq<char>>, Seq<(Seq<char>, Seq<u8>)>)>;

/// `httparse::Request::parse` over 48 header slots. A complete parse is handed back field by
/// field; a partial one or an error is `None`. The result is taken as the parser gives it.
#[verifier::external_body]
fn parse_head(bytes: &[u8]) -> (r: Option<Head>)
    ensures
        head_view(r) == http_request_head(bytes@),
{
    let mut fields = [httparse::EMPTY_HEADER; 48];
    let mut request = httparse::Request::new(&mut fields);
    match request.parse(bytes) {
        Ok(httparse::Status::Complete(_)) => Some(Head {
            method: request.method.map(str::to_owned),
            path: request.path.map(str::to_owned),
            headers: request.headers.iter().map(|h| (h.name.to_owned(), h.value.to_vec())).collect(),
        }),
        _ => None,
    }
}

/// Two header names are the same name: equal once ASCII capitals are lowered.
pub open spec fn names_match(a: Seq<char>, b: Seq<char>) -> bool {
    a.len() == b.len() && forall|i: int| 0 <= i < a.len() ==> lower_code(#[trigger] a[i]) == lower_code(b[i])
}

/// The values of every header called `key`, in order.
pub open spec fn header_values(hs: Seq<(Seq<char>, Seq<u8>)>, key: Seq<char>) -> Seq<Seq<u8>>
    decreases hs.len(),
{
    if hs.len() == 0 {
        seq![]
    } else {
        let rest = header_values(hs.drop_last(), key);
        if names_match(hs.last().0, key) {
            rest.push(hs.last().1)
        } else {
            rest
        }
    }
}

fn name_matches(a: &[char], b: &[char]) -> (r: bool)
    ensures
        r == names_match(a@, b@),
{
    if a.len() != b.len() {
        return false;
    }
    let mut i: usize = 0;
    while i < a.len()
        invariant
            a@.len() == b@.len(),
            i <= a@.len(),
            forall|j: int| 0 <= j < i ==> lower_code(#[trigger] a@[j]) == lower_code(b@[j]),
        decreases a@.len() - i,
    {
        if lower_of(a[i]) != lower_of(b[i]) {
            return false;
        }
        i += 1;
    }
    true
}

/// The values of the headers named `key`.
pub fn values(headers: &Vec<(String, Vec<u8>)>, key: &str) -> (out: Vec<Vec<u8>>)
    ensures
        out@.map_values(|v: Vec<u8>| v@) == header_values(fields_view(headers@), key@),
{
    let k = to_chars(key);
    let ghost hs = fields_view(headers@);
    let mut out: Vec<Vec<u8>> = Vec::new();
    let mut i: usize = 0;
    while i < headers.len()
        invariant
            i <= headers@.len(),
            k@ == key@,
            hs == fields_view(headers@),
            out@.map_values(|v: Vec<u8>| v@) == header_values(hs.take(i as int), key@),
        decreases headers@.len() - i,
    {
        proof {
            assert(hs.take(i + 1).drop_last() =~= hs.take(i as int));
            assert(hs.take(i + 1).last() == hs[i as int]);
        }
        let name = to_chars(headers[i].0.as_str());
        if name_matches(name.as_slice(), k.as_slice()) {
            let v = copy_range(headers[i].1.as_slice(), 0, headers[i].1.len());
            let ghost before = out@.map_values(|v: Vec<u8>| v@);
            out.push(v);
            assert(v@ =~= headers@[i as int].1@);
            assert(out@.map_values(|v: Vec<u8>| v@) =~= before.push(v@));
        }
        i += 1;
    }
    assert(hs.take(headers@.len() as int) =~= hs);
    out
}

/// The value of a run of ASCII decimal digits.
pub open spec fn digits_value(d: Seq<u8>) -> int
    decreases d.len(),
{
    if d.len() == 0 {
        0
    } else {
        digits_value(d.drop_last()) * 10 + (d.last() - 48)
    }
}

pub open spec fn all_digits(d: Seq<u8>) -> bool {
    forall|i: int| 0 <= i < d.len() ==> 48 <= #[trigger] d[i] <= 57
}

/// What `str::parse::<u64>` makes of a header value: an optional `+`, then at least one
/// digit, within range. Bytes that are not UTF-8 hold no digit there and fail as well.
pub open spec fn u64_text(b: Seq<u8>) -> Option<u64> {
    let d = if b.len() > 0 && b[0] == 43 { b.skip(1) } else { b };
    if d.len() > 0 && all_digits(d) && digits_value(d) <= u64::MAX {
        Some(digits_value(d) as u64)
    } else {
        None
    }
}

proof fn lemma_digits_nonneg(d: Seq<u8>)
    requires
        all_digits(d),
    ensures
        digits_value(d) >= 0,
    decreases d.len(),
{
    if d.len() > 0 {
        assert(all_digits(d.drop_last()));
        lemma_digits_nonneg(d.drop_last());
    }
}

/// A decimal header value, as `str::parse::<u64>` reads it.
pub fn parse_u64(b: &[u8]) -> (r: Option<u64>)
    ensures
        r == u64_text(b@),
{
    let n = b.len();
    let start: usize = if n > 0 && b[0] == 43 { 1 } else { 0 };
    let ghost d = b@.skip(start as int);
    assert(start == 0 ==> d =~= b@);
    if start == n {
        return None;
    }
    let mut acc: u128 = 0;
    let mut big = false;
    let mut i = start;
    while i < n
        invariant
            n == b@.len(),
            start <= i <= n,
            d == b@.skip(start as int),
            d == (if b@.len() > 0 && b@[0] == 43 { b@.skip(1) } else { b@ }),
            forall|j: int| start <= j < i ==> 48 <= #[trigger] b@[j] <= 57,
            !big ==> acc == digits_value(d.take(i - start)),
            big ==> digits_value(d.take(i - start)) > u64::MAX,
            acc <= u64::MAX,
        decreases n - i,
    {
        let c = b[i];
        if c < 48 || c > 57 {
            proof {
                assert(d[i - start] == c);
                assert(!all_digits(d));
            }
            return None;
        }
        proof {
            let t = d.take(i - start + 1);
            assert(t.drop_last() =~= d.take(i - start));
            assert(t.last() == c);
            assert(all_digits(d.take(i - start))) by {
                assert forall|j: int| 0 <= j < i - start implies 48 <= #[trigger] d.take(i - start)[j] <= 57 by {
                    assert(d.take(i - start)[j] == b@[j + start]);
                }
            }
            lemma_digits_nonneg(d.take(i - start));
        }
        let digit = (c - 48) as u128;
        if !big {
            let next = acc * 10 + digit;
            if next > 18446744073709551615 {
                big = true;
                acc = 0;
            } else {
                acc = next;
            }
        }
        i += 1;
    }
    proof {
        assert(d.take(n - start) =~= d);
        assert(all_digits(d)) by {
            assert forall|j: int| 0 <= j < d.len() implies 48 <= #[trigger] d[j] <= 57 by {
                assert(d[j] == b@[j + start]);
            }
        }
    }
    if big {
        return None;
    }
    Some(acc as u64)
}

// ---------------------------------------------------------------------------------------------
// Routing.
// ---------------------------------------------------------------------------------------------

/// What to do with the file a request to `/api/file` names, once the card shows the name is
/// not taken by a directory or a link.
pub enum FileAction {
    Fetch,
    Store { length: u64, replace: bool },
    Refuse(Refusal),
}

/// What a request asks of the server.
pub enum Route {
    /// Answer with this error.
    Refuse(Refusal),
    /// Serve the transfer page.
    Page,
    /// Receive a test build of this many bytes.
    Build { length: u64 },
    /// List the files of a transfer folder.
    List { dir: String },
    /// Read or write one file of a transfer folder.
    File { dir: String, name: String, action: FileAction },
}

pub enum RouteView {
    Refuse(Refusal),
    Page,
    Build(u64),
    List(Seq<char>),
    File(Seq<char>, Seq<char>, FileAction),
}

pub open spec fn route_view(r: Route) -> RouteView {
    match r {
        Route::Refuse(x) => RouteView::Refuse(x),
        Route::Page => RouteView::Page,
        Route::Build { length } => RouteView::Build(length),
        Route::List { dir } => RouteView::List(dir@),
        Route::File { dir, name, action } => RouteView::File(dir@, name@, action),
    }
}

/// The value of the first pair with this key, or nothing.
pub open spec fn lookup(ps: Seq<(Seq<char>, Seq<char>)>, key: Seq<char>) -> Seq<char>
    decreases ps.len(),
{
    if ps.len() == 0 {
        seq![]
    } else if ps[0].0 == key {
        ps[0].1
    } else {
        lookup(ps.skip(1), key)
    }
}

/// The pairs hold `key=value`.
pub open spec fn has_pair(ps: Seq<(Seq<char>, Seq<char>)>, key: Seq<char>, value: Seq<char>) -> bool {
    exists|i: int| 0 <= i < ps.len() && #[trigger] ps[i] == (key, value)
}

/// What a file request does: GET reads it; PUT writes a nonempty upload of at most
/// `MAX_FILE` bytes with the folder's extension; any other method is refused.
pub open spec fn file_action(method: Seq<char>, dir: Seq<char>, name: Seq<char>, length: u64, replace: bool) -> FileAction {
    if method == "GET"@ {
        FileAction::Fetch
    } else if method == "PUT"@ {
        if length == 0 {
            FileAction::Refuse(Refusal::Empty)
        } else if length > MAX_FILE {
            FileAction::Refuse(Refusal::TooLarge)
        } else if !extension_fits(dir, name) {
            FileAction::Refuse(Refusal::WrongType)
        } else {
            FileAction::Store { length, replace }
        }
    } else {
        FileAction::Refuse(Refusal::Unsupported)
    }
}

/// What an authenticated request asks for, by its method and target, with `present` telling
/// which transfer folders stand on the card (see `on_card`). The folder is checked first.
pub open spec fn target_route(method: Seq<char>, path: Seq<char>, length: u64, present: Seq<bool>) -> RouteView {
    if path == "/api/build"@ && method == "PUT"@ {
        RouteView::Build(length)
    } else {
        match split_once(path, '?') {
            None => RouteView::Refuse(Refusal::NotFound),
            Some((route, params)) => match query_of(params) {
                None => RouteView::Refuse(Refusal::BadQuery),
                Some(ps) => {
                    let dir = lookup(ps, "dir"@);
                    let name = lookup(ps, "name"@);
                    if !on_card(dir, present) {
                        RouteView::Refuse(Refusal::NoFolder)
                    } else if route == "/api/files"@ && method == "GET"@ {
                        RouteView::List(dir)
                    } else if route != "/api/file"@ {
                        RouteView::Refuse(Refusal::NotFound)
                    } else if !safe_name(name) {
                        RouteView::Refuse(Refusal::UnsafeName)
                    } else {
                        RouteView::File(dir, name, file_action(method, dir, name, length, has_pair(ps, "replace"@, "1"@)))
                    }
                },
            },
        }
    }
}

pub open spec fn text_or_empty(o: Option<Seq<char>>) -> Seq<char> {
    match o {
        Some(t) => t,
        None => seq![],
    }
}

/// How a request is answered, given the address the page was served from as `host`, the
/// session code, whether the window for wrong codes has run out, and how many wrong codes it
/// has seen: the answer, the wrong codes counted after it, and whether a new window starts.
///
/// The host must be the shown address and an origin, if any, its page; a body needs one
/// decimal length and no transfer coding. The page is served to anyone who got that far;
/// everything else needs the code, and eight wrong codes in a window shut the door until it
/// ends.
pub open spec fn route_of(
    head: Option<(Option<Seq<char>>, Option<Seq<char>>, Seq<(Seq<char>, Seq<u8>)>)>,
    host: Seq<u8>,
    code: Seq<u8>,
    expired: bool,
    present: Seq<bool>,
    failed: u8,
) -> (RouteView, u8, bool) {
    match head {
        None => (RouteView::Refuse(Refusal::Invalid), failed, false),
        Some((m, p, hs)) => {
            let hosts = header_values(hs, "host"@);
            let origins = header_values(hs, "origin"@);
            let lengths = header_values(hs, "content-length"@);
            if hosts.len() != 1 || hosts[0] != host {
                (RouteView::Refuse(Refusal::WrongHost), failed, false)
            } else if origins.len() > 1 || (origins.len() == 1 && origins[0] != encode_utf8("http://"@) + host) {
                (RouteView::Refuse(Refusal::WrongOrigin), failed, false)
            } else if header_values(hs, "transfer-encoding"@).len() > 0 {
                (RouteView::Refuse(Refusal::NoLength), failed, false)
            } else if lengths.len() > 1 || (lengths.len() == 1 && u64_text(lengths[0]) is None) {
                (RouteView::Refuse(Refusal::BadLength), failed, false)
            } else {
                let length: u64 = if lengths.len() == 1 { u64_text(lengths[0])->0 } else { 0 };
                let method = text_or_empty(m);
                let path = text_or_empty(p);
                if method == "GET"@ && path == "/"@ {
                    (RouteView::Page, failed, false)
                } else {
                    let f: u8 = if expired { 0 } else { failed };
                    let codes = header_values(hs, "x-slot-pin"@);
                    if f >= 8 {
                        (RouteView::Refuse(Refusal::TooManyCodes), f, expired)
                    } else if codes.len() != 1 || codes[0] != code {
                        (RouteView::Refuse(Refusal::WrongCode), (f + 1) as u8, expired)
                    } else {
                        (target_route(method, path, length, present), f, expired)
                    }
                }
            }
        },
    }
}

fn lookup_value(ps: &Vec<(String, String)>, key: &str) -> (v: String)
    ensures
        v@ == lookup(pairs_view(ps@), key@),
{
    let k = to_chars(key);
    let ghost all = pairs_view(ps@);
    let mut i: usize = 0;
    assert(all.skip(0) =~= all);
    while i < ps.len()
        invariant
            i <= ps@.len(),
            k@ == key@,
            all == pairs_view(ps@),
            lookup(all, key@) == lookup(all.skip(i as int), key@),
        decreases ps@.len() - i,
    {
        let c = to_chars(ps[i].0.as_str());
        assert(all.skip(i as int)[0] == all[i as int]);
        if crate::text::chars_equal(c.as_slice(), k.as_slice()) {
            return owned(ps[i].1.as_str());
        }
        assert(all.skip(i as int).skip(1) =~= all.skip(i + 1));
        i += 1;
    }
    assert(all.skip(i as int) =~= seq![]);
    String::new()
}

fn has_pair_exec(ps: &Vec<(String, String)>, key: &str, value: &str) -> (b: bool)
    ensures
        b == has_pair(pairs_view(ps@), key@, value@),
{
    let k = to_chars(key);
    let v = to_chars(value);
    let ghost all = pairs_view(ps@);
    let mut i: usize = 0;
    while i < ps.len()
        invariant
            i <= ps@.len(),
            k@ == key@,
            v@ == value@,
            all == pairs_view(ps@),
            forall|j: int| 0 <= j < i ==> #[trigger] all[j] != (key@, value@),
        decreases ps@.len() - i,
    {
        let a = to_chars(ps[i].0.as_str());
        let b = to_chars(ps[i].1.as_str());
        assert(all[i as int] == (ps@[i as int].0@, ps@[i as int].1@));
        if crate::text::chars_equal(a.as_slice(), k.as_slice()) && crate::text::chars_equal(b.as_slice(), v.as_slice()) {
            return true;
        }
        i += 1;
    }
    false
}

fn action_of(method: &[char], dir: &str, name: &str, length: u64, replace: bool) -> (a: FileAction)
    ensures
        a == file_action(method@, dir@, name@, length, replace),
{
    if chars_are(method, "GET") {
        FileAction::Fetch
    } else if chars_are(method, "PUT") {
        if length == 0 {
            FileAction::Refuse(Refusal::Empty)
        } else if length > MAX_FILE {
            FileAction::Refuse(Refusal::TooLarge)
        } else if !extension(dir, name) {
            FileAction::Refuse(Refusal::WrongType)
        } else {
            FileAction::Store { length, replace }
        }
    } else {
        FileAction::Refuse(Refusal::Unsupported)
    }
}

/// What an authenticated request asks for.
pub fn target(method: &str, path: &str, length: u64, present: &[bool]) -> (r: Route)
    ensures
        route_view(r) == target_route(method@, path@, length, present@),
{
    let m = to_chars(method);
    let p = to_chars(path);
    if chars_are(p.as_slice(), "/api/build") && chars_are(m.as_slice(), "PUT") {
        return Route::Build { length };
    }
    let (route, params) = match split_once_char(p.as_slice(), '?') {
        Some(rp) => rp,
        None => return Route::Refuse(Refusal::NotFound),
    };
    let ps = match query(from_chars(params.as_slice()).as_str()) {
        Some(ps) => ps,
        None => return Route::Refuse(Refusal::BadQuery),
    };
    let dir = lookup_value(&ps, "dir");
    let name = lookup_value(&ps, "name");
    let d = to_chars(dir.as_str());
    if !folder_on_card(d.as_slice(), present) {
        return Route::Refuse(Refusal::NoFolder);
    }
    if chars_are(route.as_slice(), "/api/files") && chars_are(m.as_slice(), "GET") {
        return Route::List { dir };
    }
    if !chars_are(route.as_slice(), "/api/file") {
        return Route::Refuse(Refusal::NotFound);
    }
    if !filename(name.as_str()) {
        return Route::Refuse(Refusal::UnsafeName);
    }
    let replace = has_pair_exec(&ps, "replace", "1");
    let action = action_of(m.as_slice(), dir.as_str(), name.as_str(), length, replace);
    Route::File { dir, name, action }
}

fn joined(a: &[u8], b: &[u8]) -> (out: Vec<u8>)
    ensures
        out@ == a@ + b@,
{
    let mut out = copy_range(a, 0, a.len());
    let mut i: usize = 0;
    while i < b.len()
        invariant
            i <= b@.len(),
            out@ == a@ + b@.take(i as int),
        decreases b@.len() - i,
    {
        out.push(b[i]);
        assert(b@.take(i + 1) =~= b@.take(i as int).push(b@[i as int]));
        assert(out@ =~= a@ + b@.take(i + 1));
        i += 1;
    }
    assert(b@.take(b@.len() as int) =~= b@);
    assert(a@.subrange(0, a@.len() as int) =~= a@);
    out
}

fn text_of(o: &Option<String>) -> (t: String)
    ensures
        t@ == text_or_empty(opt_text(*o)),
{
    match o {
        Some(s) => owned(s.as_str()),
        None => String::new(),
    }
}

/// How a parsed request head is answered; see `route_of`. `failed` counts the wrong codes of
/// the current window; the flag returned says a new window starts now.
pub fn decide(head: Option<Head>, host: &[u8], code: &[u8], expired: bool, present: &[bool], failed: &mut u8) -> (r: (Route, bool))
    ensures
        (route_view(r.0), *final(failed), r.1) == route_of(head_view(head), host@, code@, expired, present@, *old(failed)),
{
    let h = match head {
        Some(h) => h,
        None => return (Route::Refuse(Refusal::Invalid), false),
    };
    let ghost hs = fields_view(h.headers@);
    let hosts = values(&h.headers, "host");
    proof {
        if hosts@.len() > 0 {
            assert(hosts@.map_values(|v: Vec<u8>| v@)[0] == hosts@[0]@);
        }
    }
    if hosts.len() != 1 || !bytes_equal(hosts[0].as_slice(), host) {
        return (Route::Refuse(Refusal::WrongHost), false);
    }
    let origins = values(&h.headers, "origin");
    if origins.len() > 1 {
        return (Route::Refuse(Refusal::WrongOrigin), false);
    }
    if origins.len() == 1 {
        let want = joined("http://".as_bytes(), host);
        assert(origins@.map_values(|v: Vec<u8>| v@)[0] == origins@[0]@);
        if !bytes_equal(origins[0].as_slice(), want.as_slice()) {
            return (Route::Refuse(Refusal::WrongOrigin), false);
        }
    }
    let codings = values(&h.headers, "transfer-encoding");
    if codings.len() > 0 {
        return (Route::Refuse(Refusal::NoLength), false);
    }
    let lengths = values(&h.headers, "content-length");
    if lengths.len() > 1 {
        return (Route::Refuse(Refusal::BadLength), false);
    }
    let length: u64 = if lengths.len() == 1 {
        assert(lengths@.map_values(|v: Vec<u8>| v@)[0] == lengths@[0]@);
        match parse_u64(lengths[0].as_slice()) {
            Some(n) => n,
            None => return (Route::Refuse(Refusal::BadLength), false),
        }
    } else {
        0
    };
    let method = text_of(&h.method);
    let path = text_of(&h.path);
    let m = to_chars(method.as_str());
    let p = to_chars(path.as_str());
    if chars_are(m.as_slice(), "GET") && chars_are(p.as_slice(), "/") {
        return (Route::Page, false);
    }
    if expired {
        *failed = 0;
    }
    if *failed >= 8 {
        return (Route::Refuse(Refusal::TooManyCodes), expired);
    }
    let codes = values(&h.headers, "x-slot-pin");
    proof {
        if codes@.len() > 0 {
            assert(codes@.map_values(|v: Vec<u8>| v@)[0] == codes@[0]@);
        }
    }
    if codes.len() != 1 || !bytes_equal(codes[0].as_slice(), code) {
        *failed = *failed + 1;
        return (Route::Refuse(Refusal::WrongCode), expired);
    }
    (target(method.as_str(), path.as_str(), length, present), expired)
}

/// How the request whose head is `bytes` is answered, for the server at `host` with the
/// session code `code`; see `route_of`. The head is read by the HTTP parser.
pub fn route(bytes: &[u8], host: &str, code: &str, expired: bool, present: &[bool], failed: &mut u8) -> (r: (Route, bool))
    ensures
        (route_view(r.0), *final(failed), r.1) == route_of(
            http_request_head(bytes@),
            host.spec_bytes(),
            code.spec_bytes(),
            expired,
            present@,
            *old(failed),
        ),
{
    let head = parse_head(bytes);
    decide(head, host.as_bytes(), code.as_bytes(), expired, present, failed)
}

// ---------------------------------------------------------------------------------------------
// Replies.
// ---------------------------------------------------------------------------------------------

/// The reason phrase sent with each status code.
pub open spec fn status_label(code: u16) -> Seq<char> {
    if code == 200 {
        "OK"@
    } else if code == 201 {
        "Created"@
    } else if code == 400 {
        "Bad Request"@
    } else if code == 401 {
        "Unauthorized"@
    } else if code == 403 {
        "Forbidden"@
    } else if code == 404 {
        "Not Found"@
    } else if code == 409 {
        "Conflict"@
    } else if code == 413 {
        "Content Too Large"@
    } else if code == 429 {
        "Too Many Requests"@
    } else {
        "Error"@
    }
}

fn label(code: u16) -> (s: &'static str)
    ensures
        s@ == status_label(code),
{
    if code == 200 {
        "OK"
    } else if code == 201 {
        "Created"
    } else if code == 400 {
        "Bad Request"
    } else if code == 401 {
        "Unauthorized"
    } else if code == 403 {
        "Forbidden"
    } else if code == 404 {
        "Not Found"
    } else if code == 409 {
        "Conflict"
    } else if code == 413 {
        "Content Too Large"
    } else if code == 429 {
        "Too Many Requests"
    } else {
        "Error"
    }
}

/// The headers every reply closes with: no caching, no sniffing, no referrer, and a content
/// policy that lets the page talk only to this server.
pub open spec fn reply_tail() -> Seq<char> {
    "\r\nConnection: close\r\nCache-Control: no-store\r\nX-Content-Type-Options: nosniff\r\nReferrer-Policy: no-referrer\r\nContent-Security-Policy: default-src 'none'; script-src 'unsafe-inline'; style-src 'unsafe-inline'; connect-src 'self'; img-src 'self' data:; frame-ancestors 'none'; base-uri 'none'; form-action 'self'\r\n\r\n"@
}

/// A reply's head: status line, type, length and the fixed headers.
pub open spec fn reply_head_of(code: u16, mime: Seq<char>, len: u64) -> Seq<char> {
    "HTTP/1.1 "@ + crate::text::decimal(code as nat) + " "@ + status_label(code) + "\r\nContent-Type: "@ + mime
        + "\r\nContent-Length: "@ + crate::text::decimal(len as nat) + reply_tail()
}

/// The head of a reply with this status, content type and body length.
pub fn reply_head(code: u16, mime: &str, len: u64) -> (h: String)
    ensures
        h@ == reply_head_of(code, mime@, len),
{
    let mut h = owned("HTTP/1.1 ");
    let c = crate::text::decimal_text(code as u64);
    h.append(c.as_str());
    h.append(" ");
    h.append(label(code));
    h.append("\r\nContent-Type: ");
    h.append(mime);
    h.append("\r\nContent-Length: ");
    let l = crate::text::decimal_text(len);
    h.append(l.as_str());
    h.append("\r\nConnection: close\r\nCache-Control: no-store\r\nX-Content-Type-Options: nosniff\r\nReferrer-Policy: no-referrer\r\nContent-Security-Policy: default-src 'none'; script-src 'unsafe-inline'; style-src 'unsafe-inline'; connect-src 'self'; img-src 'self' data:; frame-ancestors 'none'; base-uri 'none'; form-action 'self'\r\n\r\n");
    h
}

/// A lowercase hexadecimal digit.
pub open spec fn hex_lower_digit(d: int) -> char {
    if d < 10 {
        (48 + d) as char
    } else {
        (87 + d) as char
    }
}

/// How a JSON string writes one character: quote, backslash and the control characters
/// escaped, short forms where JSON has them and `\u00XX` otherwise; the rest as it is.
pub open spec fn json_escape(c: char) -> Seq<char> {
    if c == '"' {
        "\\\""@
    } else if c == '\\' {
        "\\\\"@
    } else if c == '\x08' {
        "\\b"@
    } else if c == '\t' {
        "\\t"@
    } else if c == '\n' {
        "\\n"@
    } else if c == '\x0c' {
        "\\f"@
    } else if c == '\r' {
        "\\r"@
    } else if (c as u32) < 32 {
        "\\u00"@ + seq![hex_lower_digit(((c as u32) / 16) as int), hex_lower_digit(((c as u32) % 16) as int)]
    } else {
        seq![c]
    }
}

/// The escaped characters of a string, in order.
pub open spec fn json_chars(s: Seq<char>) -> Seq<char>
    decreases s.len(),
{
    if s.len() == 0 {
        seq![]
    } else {
        json_chars(s.drop_last()) + json_escape(s.last())
    }
}

/// A string as a JSON string literal.
pub open spec fn json_quote(s: Seq<char>) -> Seq<char> {
    seq!['"'] + json_chars(s) + seq!['"']
}

/// `serde_json::to_string` of a string: the string as a JSON literal in quotes, with the
/// escapes of `json_escape`. Serialising a string into memory cannot fail; the error arm is
/// never taken.
#[verifier::external_body]
fn json_string(s: &str) -> (r: String)
    ensures
        r@ == json_quote(s@),
{
    match serde_json::to_string(s) {
        Ok(text) => text,
        Err(_) => String::new(),
    }
}

/// The body of an error reply.
pub open spec fn error_body_of(message: Seq<char>) -> Seq<char> {
    "{\"error\":"@ + json_quote(message) + "}"@
}

/// The JSON body an error reply carries: `{"error": message}`.
pub fn error_body(message: &str) -> (b: String)
    ensures
        b@ == error_body_of(message@),
{
    let mut b = owned("{\"error\":");
    let q = json_string(message);
    b.append(q.as_str());
    b.append("}");
    b
}

/// The body of a reply to a refusal.
pub fn refusal_body(r: &Refusal) -> (b: String)
    ensures
        b@ == error_body_of(refusal_message(*r)),
{
    let m = r.message();
    error_body(m.as_str())
}

/// File names in the order the listing gives them: by their bytes.
pub open spec fn entry_lt(a: (Seq<char>, u64), b: (Seq<char>, u64)) -> bool {
    crate::text::bytes_lt(encode_utf8(a.0), encode_utf8(b.0))
}

/// One file of a listing.
pub open spec fn entry_json(f: (Seq<char>, u64)) -> Seq<char> {
    "{\"name\":"@ + json_quote(f.0) + ",\"size\":"@ + crate::text::decimal(f.1 as nat) + "}"@
}

/// Files of a listing, comma separated.
pub open spec fn entries_json(fs: Seq<(Seq<char>, u64)>) -> Seq<char>
    decreases fs.len(),
{
    if fs.len() == 0 {
        seq![]
    } else if fs.len() == 1 {
        entry_json(fs[0])
    } else {
        entries_json(fs.drop_last()) + ","@ + entry_json(fs.last())
    }
}

/// A folder listing: its files sorted by name, and the largest upload allowed.
pub open spec fn listing_of(files: Seq<(Seq<char>, u64)>) -> Seq<char> {
    "{\"files\":["@ + entries_json(crate::sorting::sort_by(files, |a: (Seq<char>, u64), b: (Seq<char>, u64)| entry_lt(a, b)))
        + "],\"maxFileSize\":134217728}"@
}

pub open spec fn files_view(v: Seq<(String, u64)>) -> Seq<(Seq<char>, u64)> {
    v.map_values(|f: (String, u64)| (f.0@, f.1))
}

fn entry_less(a: &(String, u64), b: &(String, u64)) -> (r: bool)
    ensures
        r == entry_lt((a.0@, a.1), (b.0@, b.1)),
{
    crate::text::bytes_less(a.0.as_str().as_bytes(), b.0.as_str().as_bytes())
}

/// The JSON body listing a folder's files, each a name and a size in bytes.
pub fn listing_body(files: &Vec<(String, u64)>) -> (b: String)
    ensures
        b@ == listing_of(files_view(files@)),
{
    let ghost all = files_view(files@);
    let ghost lt = |a: (Seq<char>, u64), b: (Seq<char>, u64)| entry_lt(a, b);
    let mut sorted: Vec<(String, u64)> = Vec::new();
    let mut j: usize = 0;
    while j < files.len()
        invariant
            j <= files@.len(),
            all == files_view(files@),
            lt == (|a: (Seq<char>, u64), b: (Seq<char>, u64)| entry_lt(a, b)),
            files_view(sorted@) == crate::sorting::sort_by(all.take(j as int), lt),
        decreases files@.len() - j,
    {
        let x = (owned(files[j].0.as_str()), files[j].1);
        let mut p = sorted.len();
        while p > 0 && entry_less(&x, &sorted[p - 1])
            invariant
                p <= sorted@.len(),
                lt == (|a: (Seq<char>, u64), b: (Seq<char>, u64)| entry_lt(a, b)),
                forall|q: int| p <= q < sorted@.len() ==> lt((x.0@, x.1), #[trigger] files_view(sorted@)[q]),
            decreases p,
        {
            assert(files_view(sorted@)[p - 1] == (sorted@[p - 1].0@, sorted@[p - 1].1));
            p -= 1;
        }
        proof {
            if p > 0 {
                assert(files_view(sorted@)[p - 1] == (sorted@[p - 1].0@, sorted@[p - 1].1));
            }
        }
        let ghost before = files_view(sorted@);
        let ghost xv = (x.0@, x.1);
        proof {
            crate::sorting::lemma_insert_by_at(before, xv, lt, p as int);
            assert(all.take(j + 1).drop_last() =~= all.take(j as int));
            assert(all.take(j + 1).last() == xv);
        }
        sorted.insert(p, x);
        assert(files_view(sorted@) =~= before.take(p as int).push(xv) + before.skip(p as int));
        assert(files_view(sorted@) =~= crate::sorting::sort_by(all.take(j + 1), lt));
        j += 1;
    }
    assert(all.take(files@.len() as int) =~= all);
    let ghost ordered = files_view(sorted@);
    let mut b = owned("{\"files\":[");
    let ghost start = b@;
    let mut k: usize = 0;
    while k < sorted.len()
        invariant
            k <= sorted@.len(),
            ordered == files_view(sorted@),
            start == "{\"files\":["@,
            b@ == start + entries_json(ordered.take(k as int)),
        decreases sorted@.len() - k,
    {
        proof {
            assert(ordered.take(k + 1).drop_last() =~= ordered.take(k as int));
            assert(ordered.take(k + 1).last() == ordered[k as int]);
            assert(ordered[k as int] == (sorted@[k as int].0@, sorted@[k as int].1));
        }
        if k > 0 {
            b.append(",");
        }
        b.append("{\"name\":");
        let q = json_string(sorted[k].0.as_str());
        b.append(q.as_str());
        b.append(",\"size\":");
        let n = crate::text::decimal_text(sorted[k].1);
        b.append(n.as_str());
        b.append("}");
        proof {
            if k == 0 {
                assert(ordered.take(1) =~= seq![ordered[0]]);
            }
            assert(b@ =~= start + entries_json(ordered.take(k + 1)));
        }
        k += 1;
    }
    assert(ordered.take(sorted@.len() as int) =~= ordered);
    b.append("],\"maxFileSize\":134217728}");
    b
}

/// A session code: the number below 100,000,000 a random word gives, as eight digits with
/// leading zeros.
pub open spec fn pin_of(random: u32) -> Seq<char> {
    let d = crate::text::decimal((random % 100000000) as nat);
    Seq::new((8 - d.len()) as nat, |i: int| '0') + d
}

/// Ten to the `k`.
pub open spec fn ten(k: nat) -> nat
    decreases k,
{
    if k == 0 {
        1
    } else {
        10 * ten((k - 1) as nat)
    }
}

proof fn lemma_decimal_len(n: nat, k: nat)
    requires
        k >= 1,
        n < ten(k),
    ensures
        crate::text::decimal(n).len() <= k,
    decreases k,
{
    if n >= 10 {
        if k == 1 {
            assert(ten(1) == 10 * ten(0));
        }
        assert(n / 10 < ten((k - 1) as nat)) by (nonlinear_arith)
            requires
                n < 10 * ten((k - 1) as nat),
        ;
        lemma_decimal_len(n / 10, (k - 1) as nat);
    }
}

/// The eight-digit session code a random word gives.
pub fn pin_text(random: u32) -> (p: String)
    ensures
        p@ == pin_of(random),
        p@.len() == 8,
{
    let n = random % 100000000;
    let d = crate::text::decimal_text(n as u64);
    proof {
        reveal_with_fuel(ten, 9);
        assert(ten(8) == 100000000);
        lemma_decimal_len(n as nat, 8);
    }
    let dc = to_chars(d.as_str());
    let count = 8 - dc.len();
    let mut zeros: Vec<char> = Vec::new();
    while zeros.len() < count
        invariant
            zeros@.len() <= count,
            forall|i: int| 0 <= i < zeros@.len() ==> #[trigger] zeros@[i] == '0',
        decreases count - zeros@.len(),
    {
        zeros.push('0');
    }
    let mut p = from_chars(zeros.as_slice());
    p.append(d.as_str());
    assert(zeros@ =~= Seq::new(count as nat, |i: int| '0'));
    p
}

/// The address a browser opens: the IPv4 address in dotted decimal, a colon and the port.
pub open spec fn address_of(ip: [u8; 4], port: u16) -> Seq<char> {
    crate::text::decimal(ip[0] as nat) + "."@ + crate::text::decimal(ip[1] as nat) + "."@ + crate::text::decimal(
        ip[2] as nat,
    ) + "."@ + crate::text::decimal(ip[3] as nat) + ":"@ + crate::text::decimal(port as nat)
}

/// The server's address as text, as the page is opened at and its requests name as host.
pub fn address_text(ip: [u8; 4], port: u16) -> (a: String)
    ensures
        a@ == address_of(ip, port),
{
    let mut a = crate::text::decimal_text(ip[0] as u64);
    a.append(".");
    a.append(crate::text::decimal_text(ip[1] as u64).as_str());
    a.append(".");
    a.append(crate::text::decimal_text(ip[2] as u64).as_str());
    a.append(".");
    a.append(crate::text::decimal_text(ip[3] as u64).as_str());
    a.append(":");
    a.append(crate::text::decimal_text(port as u64).as_str());
    a
}

/// The folder entries a listing shows: those with a name a transfer may use that are regular
/// files, each with its size, in the order the folder gave them. An entry's size is `None`
/// when it is not a regular file (or could not be read).
pub open spec fn listed_of(es: Seq<(Seq<char>, Option<u64>)>) -> Seq<(Seq<char>, u64)>
    decreases es.len(),
{
    if es.len() == 0 {
        seq![]
    } else {
        let r = listed_of(es.drop_last());
        match es.last().1 {
            Some(n) => if safe_name(es.last().0) {
                r.push((es.last().0, n))
            } else {
                r
            },
            None => r,
        }
    }
}

pub open spec fn entries_view(v: Seq<(String, Option<u64>)>) -> Seq<(Seq<char>, Option<u64>)> {
    v.map_values(|e: (String, Option<u64>)| (e.0@, e.1))
}

/// The files a listing shows of a folder's entries; see `listed_of`.
pub fn listed_files(entries: Vec<(String, Option<u64>)>) -> (files: Vec<(String, u64)>)
    ensures
        files_view(files@) == listed_of(entries_view(entries@)),
{
    let ghost es = entries_view(entries@);
    let mut files: Vec<(String, u64)> = Vec::new();
    let mut i: usize = 0;
    while i < entries.len()
        invariant
            i <= entries@.len(),
            es == entries_view(entries@),
            files_view(files@) == listed_of(es.take(i as int)),
        decreases entries@.len() - i,
    {
        proof {
            assert(es.take(i + 1).drop_last() =~= es.take(i as int));
            assert(es.take(i + 1).last() == (entries@[i as int].0@, entries@[i as int].1));
        }
        let name = &entries[i].0;
        match entries[i].1 {
            Some(size) => {
                if filename(name.as_str()) {
                    let ghost before = files_view(files@);
                    files.push((name.clone(), size));
                    assert(files_view(files@) =~= before.push((name@, size)));
                }
            },
            None => {},
        }
        i += 1;
    }
    assert(es.take(entries@.len() as int) =~= es);
    files
}

/// Before an upload is taken in: a file already at the destination is kept unless the
/// request asked to replace it.
pub fn before_store(exists: bool, replace: bool) -> (r: Option<Refusal>)
    ensures
        r == (if exists && !replace { Some(Refusal::Exists) } else { None }),
{
    if exists && !replace {
        Some(Refusal::Exists)
    } else {
        None
    }
}

/// How an upload ends.
pub enum StoreEnd {
    /// The upload is refused and the destination left as it was.
    Refuse(Refusal),
    /// The server stopped while it came in: nothing is published and nothing answered.
    Quiet,
    /// The upload replaces the destination.
    Publish,
}

/// How an upload ends, from whether its whole body came in and was synced (`received`),
/// whether the server has stopped, and what stands at the destination now: an interrupted
/// upload is refused; after a stop nothing is published; a destination that is no longer a
/// regular file, or that appeared when no replacement was asked, is refused as changed;
/// otherwise the upload replaces it.
pub open spec fn store_end_of(received: bool, stopped: bool, not_regular: bool, exists: bool, replace: bool) -> StoreEnd {
    if !received {
        StoreEnd::Refuse(Refusal::Interrupted)
    } else if stopped {
        StoreEnd::Quiet
    } else if not_regular || (exists && !replace) {
        StoreEnd::Refuse(Refusal::Changed)
    } else {
        StoreEnd::Publish
    }
}

/// How an upload ends; see `store_end_of`.
pub fn store_end(received: bool, stopped: bool, not_regular: bool, exists: bool, replace: bool) -> (e: StoreEnd)
    ensures
        e == store_end_of(received, stopped, not_regular, exists, replace),
{
    if !received {
        StoreEnd::Refuse(Refusal::Interrupted)
    } else if stopped {
        StoreEnd::Quiet
    } else if not_regular || (exists && !replace) {
        StoreEnd::Refuse(Refusal::Changed)
    } else {
        StoreEnd::Publish
    }
}

/// A test build's declared length is acceptable: nonempty, at most `MAX_FILE`.
pub fn build_length_ok(length: u64) -> (b: bool)
    ensures
        b == (length != 0 && length <= MAX_FILE),
{
    length != 0 && length <= MAX_FILE
}

// ---------------------------------------------------------------------------------------------
// What routing guarantees.
// ---------------------------------------------------------------------------------------------

/// The session code guards everything but the page: a request that is given a build upload, a
/// listing or a file carried the code exactly once, and came to the shown address.
pub proof fn lemma_code_guards_files(
    head: Option<(Option<Seq<char>>, Option<Seq<char>>, Seq<(Seq<char>, Seq<u8>)>)>,
    host: Seq<u8>,
    code: Seq<u8>,
    expired: bool,
    present: Seq<bool>,
    failed: u8,
)
    ensures
        ({
            let r = route_of(head, host, code, expired, present, failed).0;
            (r is Build || r is List || r is File) ==> (head matches Some((_, _, hs)) && header_values(
                hs,
                "x-slot-pin"@,
            ) == seq![code] && header_values(hs, "host"@) == seq![host])
        }),
{
    let r = route_of(head, host, code, expired, present, failed).0;
    if r is Build || r is List || r is File {
        match head {
            Some((m, p, hs)) => {
                let codes = header_values(hs, "x-slot-pin"@);
                let hosts = header_values(hs, "host"@);
                assert(codes.len() == 1 && codes[0] == code);
                assert(codes =~= seq![code]);
                assert(hosts =~= seq![host]);
            },
            None => {},
        }
    }
}

/// Eight wrong codes shut the door for the rest of the window: until it runs out, no request
/// is given a build upload, a listing or a file, and the count stays where it is.
pub proof fn lemma_wrong_codes_lock(
    head: Option<(Option<Seq<char>>, Option<Seq<char>>, Seq<(Seq<char>, Seq<u8>)>)>,
    host: Seq<u8>,
    code: Seq<u8>,
    present: Seq<bool>,
    failed: u8,
)
    requires
        failed >= 8,
    ensures
        ({
            let (r, f, restart) = route_of(head, host, code, false, present, failed);
            &&& !(r is Build || r is List || r is File)
            &&& f == failed
            &&& !restart
        }),
{
}

/// Each wrong code counts once, and the count never passes eight.
pub proof fn lemma_wrong_codes_counted(
    head: Option<(Option<Seq<char>>, Option<Seq<char>>, Seq<(Seq<char>, Seq<u8>)>)>,
    host: Seq<u8>,
    code: Seq<u8>,
    expired: bool,
    present: Seq<bool>,
    failed: u8,
)
    requires
        failed <= 8,
    ensures
        ({
            let (r, f, _) = route_of(head, host, code, expired, present, failed);
            &&& f <= 8
            &&& r == RouteView::Refuse(Refusal::WrongCode) ==> f == (if expired { 0int } else { failed as int }) + 1
            &&& r != RouteView::Refuse(Refusal::WrongCode) ==> f == failed || (expired && f == 0)
        }),
{
}

/// Requests stay inside the transfer folders that stand on the card: a listing names one of
/// them, and a file request one of them and a name that holds no separator, does not start with a dot and ends in
/// neither a dot nor a space.
pub proof fn lemma_routes_stay_in_folders(
    head: Option<(Option<Seq<char>>, Option<Seq<char>>, Seq<(Seq<char>, Seq<u8>)>)>,
    host: Seq<u8>,
    code: Seq<u8>,
    expired: bool,
    present: Seq<bool>,
    failed: u8,
)
    ensures
        match route_of(head, host, code, expired, present, failed).0 {
            RouteView::List(d) => is_folder(d) && on_card(d, present),
            RouteView::File(d, n, _) => is_folder(d) && on_card(d, present) && safe_name(n) && forall|i: int|
                0 <= i < n.len() ==> #[trigger] n[i] != '/' && n[i] != '\\',
            _ => true,
        },
{
}

/// Only a nonempty upload of at most `MAX_FILE` bytes with the folder's extension is taken in.
pub proof fn lemma_uploads_bounded(
    head: Option<(Option<Seq<char>>, Option<Seq<char>>, Seq<(Seq<char>, Seq<u8>)>)>,
    host: Seq<u8>,
    code: Seq<u8>,
    expired: bool,
    present: Seq<bool>,
    failed: u8,
)
    ensures
        match route_of(head, host, code, expired, present, failed).0 {
            RouteView::File(d, n, FileAction::Store { length, .. }) => 0 < length <= MAX_FILE && extension_fits(d, n),
            _ => true,
        },
{
}

/// Only a completed upload reaches the card, never after the server stopped, never over
/// anything but a regular file, and over an existing file only when the request asked to
/// replace it.
pub proof fn lemma_only_completed_uploads_replace(
    received: bool,
    stopped: bool,
    not_regular: bool,
    exists: bool,
    replace: bool,
)
    ensures
        store_end_of(received, stopped, not_regular, exists, replace) is Publish ==> received && !stopped
            && !not_regular && (exists ==> replace),
{
}

/// An upload is marked to replace an existing file only when its query says `replace=1`:
/// the page asks before replacing, and without that answer an existing file is kept.
pub proof fn lemma_replacing_is_asked_for(method: Seq<char>, path: Seq<char>, length: u64, present: Seq<bool>)
    ensures
        target_route(method, path, length, present) matches RouteView::File(_, _, FileAction::Store { replace, .. })
            ==> (replace <==> (split_once(path, '?') matches Some((_, q)) && query_of(q) matches Some(ps)
            && has_pair(ps, "replace"@, "1"@))),
{
}

/// The name's text after position `k` spells `ext` in any case: exactly as many characters,
/// each the small letter or its capital.
pub open spec fn tail_spells(name: Seq<char>, k: int, ext: Seq<char>) -> bool {
    &&& name.len() == k + 1 + ext.len()
    &&& forall|i: int| 0 <= i < ext.len() ==> #[trigger] name[k + 1 + i] == ext[i] || name[k + 1 + i] as u32 + 32 == ext[i] as u32
}

proof fn lemma_lowered_spells(name: Seq<char>, k: int, ext: Seq<char>)
    requires
        -1 <= k < name.len(),
        forall|i: int| 0 <= i < ext.len() ==> 97 <= (#[trigger] ext[i]) as u32 <= 122,
    ensures
        lowered_is(name.skip(k + 1), ext) <==> tail_spells(name, k, ext),
{
    let t = name.skip(k + 1);
    if lowered_is(t, ext) {
        assert forall|i: int| 0 <= i < ext.len() implies #[trigger] name[k + 1 + i] == ext[i] || name[k + 1 + i] as u32 + 32
            == ext[i] as u32 by {
            assert(t[i] == name[k + 1 + i]);
            assert(lower_code(t[i]) == ext[i] as u32);
            if ext[i] != name[k + 1 + i] {
                if !(65 <= (t[i] as u32) <= 90) {
                    assert(lower_code(t[i]) == t[i] as u32);
                    vstd::utf8::char_u32_cast(t[i], t[i] as u32);
                    vstd::utf8::char_u32_cast(ext[i], ext[i] as u32);
                }
            }
        }
    }
    if tail_spells(name, k, ext) {
        assert forall|i: int| 0 <= i < t.len() implies lower_code(#[trigger] t[i]) == ext[i] as u32 by {
            assert(t[i] == name[k + 1 + i]);
            assert(name[k + 1 + i] == ext[i] || name[k + 1 + i] as u32 + 32 == ext[i] as u32);
        }
    }
}

/// The file types the folders take: a name whose last dot is at `k` (or that has none, with
/// `k` at -1) fits a label folder exactly when the text after that dot, in any case, is
/// `png`, a game folder when it is the console's own (`gba`, `gb`, `gbc`), and the BIOS
/// folder when it is `bin`.
pub proof fn lemma_folder_file_types(name: Seq<char>, k: int)
    requires
        -1 <= k < name.len(),
        k >= 0 ==> name[k] == '.',
        forall|j: int| k < j < name.len() ==> name[j] != '.',
    ensures
        extension_fits("Labels/GBA"@, name) <==> tail_spells(name, k, "png"@),
        extension_fits("Labels/GB"@, name) <==> tail_spells(name, k, "png"@),
        extension_fits("Labels/GBC"@, name) <==> tail_spells(name, k, "png"@),
        extension_fits("Games/GBA"@, name) <==> tail_spells(name, k, "gba"@),
        extension_fits("Games/GB"@, name) <==> tail_spells(name, k, "gb"@),
        extension_fits("Games/GBC"@, name) <==> tail_spells(name, k, "gbc"@),
        extension_fits("BIOS"@, name) <==> tail_spells(name, k, "bin"@),
{
    reveal_strlit("Labels/GBA");
    reveal_strlit("Labels/GB");
    reveal_strlit("Labels/GBC");
    reveal_strlit("Games/GBA");
    reveal_strlit("Games/GB");
    reveal_strlit("Games/GBC");
    reveal_strlit("BIOS");
    reveal_strlit("png");
    reveal_strlit("gba");
    reveal_strlit("gb");
    reveal_strlit("gbc");
    reveal_strlit("bin");
    lemma_after_last_at(name, '.', k);
    lemma_lowered_spells(name, k, "png"@);
    lemma_lowered_spells(name, k, "gba"@);
    lemma_lowered_spells(name, k, "gb"@);
    lemma_lowered_spells(name, k, "gbc"@);
    lemma_lowered_spells(name, k, "bin"@);
    assert("Labels/GBA"@[0] != "Games/GBA"@[0]);
    assert("Labels/GB"@[0] != "Games/GBA"@[0]);
    assert("Labels/GB"@[0] != "Games/GB"@[0]);
    assert("Labels/GBC"@[0] != "Games/GBC"@[0]);
    assert("Labels/GBA"@[0] != "Games/GB"@[0]);
    assert("Labels/GBC"@[0] != "Games/GB"@[0]);
    assert("Labels/GBC"@[0] != "Games/GBA"@[0]);
    assert("Labels/GBA"@[0] != "Games/GBC"@[0]);
    assert("Labels/GB"@[0] != "Games/GBC"@[0]);
    assert("Games/GBC"@[8] != "Games/GBA"@[8]);
    assert(folder_extension("Labels/GBA"@) == "png"@);
    assert(folder_extension("Labels/GB"@) == "png"@);
    assert(folder_extension("Labels/GBC"@) == "png"@);
    assert("Games/GB"@.len() != "Games/GBA"@.len());
    assert("Games/GBC"@.len() != "Games/GB"@.len());
    assert("BIOS"@.len() != "Games/GB"@.len());
    assert("BIOS"@.len() != "Games/GBA"@.len());
    assert("BIOS"@.len() != "Games/GBC"@.len());
    assert(folder_extension("Games/GB"@) == "gb"@);
    assert(folder_extension("Games/GBC"@) == "gbc"@);
    assert(folder_extension("BIOS"@) == "bin"@);
}

} // verus!
