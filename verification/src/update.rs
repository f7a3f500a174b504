//! Updating the Slot+ executable from the latest published release: what the release data
//! must hold, what a downloaded or uploaded binary must look like, and the screen that walks
//! through it. Downloads, files and the worker thread stay with the caller.
use vstd::prelude::*;
use vstd::utf8::*;
use vstd::string::StringSliceAdditionalSpecFns;

use crate::text::{
    owned, from_chars, to_chars, copy_range, has_prefix, strip_prefix, strip_prefix_chars, is_hex_byte,
    lines, split_lines, trim, trim_chars,
};
use crate::wifi::{strings_view, Polled, channel_try_recv};
use crate::input::{Millis, next_rev, bump};
use crate::face::{
    UndoFace, TextRun, TextView, OUT_W, OUT_H, run, runs_view, bright, dim, well_formed, fill, blank_face, ground,
    in_rect, clip_lo, clip_hi,
};

verus! {

broadcast use vstd::string::group_string_axioms;

/// The largest Slot+ binary accepted, from a release or an upload: 128 MiB.
pub const MAX_SIZE: u64 = 128 * 1024 * 1024;

/// The release asset that holds the handheld's binary.
pub open spec fn asset_name() -> Seq<char> {
    "slot-h700"@
}

/// A binary a release offers: its SHA-256 digest in lowercase hexadecimal, and its size.
pub struct Asset {
    pub digest: String,
    pub size: u64,
}

/// A published release: its tag, its notes line by line, and the handheld binary if it has
/// one.
pub struct Release {
    pub tag: String,
    pub notes: Vec<String>,
    pub asset: Option<Asset>,
}

pub type AssetView = (Seq<char>, u64);

pub type ReleaseView = (Seq<char>, Seq<Seq<char>>, Option<AssetView>);

pub open spec fn asset_view(a: Option<Asset>) -> Option<AssetView> {
    match a {
        Some(a) => Some((a.digest@, a.size)),
        None => None,
    }
}

pub open spec fn release_view(r: Release) -> ReleaseView {
    (r.tag@, strings_view(r.notes@), asset_view(r.asset))
}

pub fn copy_release(r: &Release) -> (c: Release)
    ensures
        release_view(c) == release_view(*r),
{
    let mut notes: Vec<String> = Vec::new();
    let mut i: usize = 0;
    while i < r.notes.len()
        invariant
            i <= r.notes@.len(),
            strings_view(notes@) == strings_view(r.notes@).take(i as int),
        decreases r.notes@.len() - i,
    {
        let ghost before = strings_view(notes@);
        notes.push(owned(r.notes[i].as_str()));
        assert(strings_view(notes@) =~= before.push(r.notes@[i as int]@));
        assert(strings_view(r.notes@).take(i + 1) =~= strings_view(r.notes@).take(i as int).push(r.notes@[i as int]@));
        i += 1;
    }
    assert(strings_view(r.notes@).take(r.notes@.len() as int) =~= strings_view(r.notes@));
    let asset = match &r.asset {
        Some(a) => Some(Asset { digest: owned(a.digest.as_str()), size: a.size }),
        None => None,
    };
    Release { tag: owned(r.tag.as_str()), notes, asset }
}

// ---------------------------------------------------------------------------------------------
// Release data.
// ---------------------------------------------------------------------------------------------

/// What the release data's JSON holds that an update reads: for each asset its name, size and
/// digest; for the release its tag, its notes and its assets. A field is `None` where it is
/// missing or of another JSON type.
pub struct AssetFields {
    pub name: Option<String>,
    pub size: Option<u64>,
    pub digest: Option<String>,
}

pub struct ReleaseFields {
    pub tag: Option<String>,
    pub body: Option<String>,
    pub assets: Option<Vec<AssetFields>>,
}

pub type AssetFieldsView = (Option<Seq<char>>, Option<u64>, Option<Seq<char>>);

pub open spec fn opt_text(o: Option<String>) -> Option<Seq<char>> {
    match o {
        Some(s) => Some(s@),
        None => None,
    }
}

pub open spec fn asset_fields_view(a: AssetFields) -> AssetFieldsView {
    (opt_text(a.name), a.size, opt_text(a.digest))
}

pub open spec fn release_fields_view(f: Option<ReleaseFields>) -> Option<
    (Option<Seq<char>>, Option<Seq<char>>, Option<Seq<AssetFieldsView>>),
> {
    match f {
        Some(f) => Some(
            (
                opt_text(f.tag),
                opt_text(f.body),
                match f.assets {
                    Some(v) => Some(v@.map_values(|a: AssetFields| asset_fields_view(a))),
                    None => None,
                },
            ),
        ),
        None => None,
    }
}

/// What `serde_json::from_slice` reads from release data, taken field by field: `None` when
/// the bytes are not JSON; else the `tag_name` and `body` strings and, when `assets` is an
/// array, each asset's `name` string, `size` as a `u64` and `digest` string.
pub uninterp spec fn release_json(bytes: Seq<u8>) -> Option<(Option<Seq<char>>, Option<Seq<char>>, Option<Seq<(Option<Seq<char>>, Option<u64>, Option<Seq<char>>)>>)>;

/// `serde_json::from_slice` into a JSON value, and the fields the release check reads, moved
/// out one for one. The parse itself is taken as serde_json performs it.
#[verifier::external_body]
fn release_fields(json: &[u8]) -> (r: Option<ReleaseFields>)
    ensures
        release_fields_view(r) == release_json(json@),
{
    let value: serde_json::Value = serde_json::from_slice(json).ok()?;
    let text = |v: &serde_json::Value| v.as_str().map(str::to_owned);
    Some(ReleaseFields {
        tag: text(&value["tag_name"]),
        body: text(&value["body"]),
        assets: value["assets"].as_array().map(|all| all.iter().map(|a| AssetFields {
            name: text(&a["name"]),
            size: a["size"].as_u64(),
            digest: text(&a["digest"]),
        }).collect()),
    })
}

/// Every byte is an ASCII hexadecimal digit.
pub open spec fn all_hex(b: Seq<u8>) -> bool {
    forall|i: int| 0 <= i < b.len() ==> is_hex_byte(#[trigger] b[i])
}

/// A character with ASCII capitals lowered, as `to_ascii_lowercase` does.
pub open spec fn ascii_lower(c: char) -> char {
    if 'A' <= c && c <= 'Z' {
        ((c as u32) + 32) as char
    } else {
        c
    }
}

pub open spec fn lowered(s: Seq<char>) -> Seq<char> {
    s.map_values(|c: char| ascii_lower(c))
}

/// A line of release notes as shown: trimmed, its heading marks and code ticks gone.
pub open spec fn strip_hashes(s: Seq<char>) -> Seq<char>
    decreases s.len(),
{
    if s.len() > 0 && s[0] == '#' {
        strip_hashes(s.skip(1))
    } else {
        s
    }
}

pub open spec fn drop_ticks(s: Seq<char>) -> Seq<char>
    decreases s.len(),
{
    if s.len() == 0 {
        s
    } else if s.last() == '`' {
        drop_ticks(s.drop_last())
    } else {
        drop_ticks(s.drop_last()).push(s.last())
    }
}

pub open spec fn note_line(raw: Seq<char>) -> Seq<char> {
    drop_ticks(trim(strip_hashes(trim(raw))))
}

/// `s` in capitals, as `str::to_uppercase` maps it.
pub uninterp spec fn uppercase(s: Seq<char>) -> Seq<char>;

/// `str::to_uppercase`: the contract claims only that the result is the uppercase mapping of
/// the argument's characters.
#[verifier::external_body]
fn to_uppercase(s: &str) -> (r: String)
    ensures
        r@ == uppercase(s@),
{
    s.to_uppercase()
}

/// The notes of a body's lines, in order: each line cleaned and set in capitals, as the
/// screen's label lettering shows them; blank lines kept only as one separator after text.
pub open spec fn notes_fold(ls: Seq<Seq<char>>) -> Seq<Seq<char>>
    decreases ls.len(),
{
    if ls.len() == 0 {
        seq![]
    } else {
        let acc = notes_fold(ls.drop_last());
        let l = note_line(ls.last());
        if l.len() == 0 {
            if acc.len() > 0 && acc.last().len() > 0 {
                acc.push(seq![])
            } else {
                acc
            }
        } else {
            acc.push(uppercase(l))
        }
    }
}

/// The notes a release body shows; a placeholder when it has none.
pub open spec fn note_lines(body: Seq<char>) -> Seq<Seq<char>> {
    let r = notes_fold(lines(body));
    if r.len() == 0 {
        seq!["No release notes"@]
    } else {
        r
    }
}

/// The first asset with the handheld binary's name, if any.
pub open spec fn find_asset(assets: Seq<AssetFieldsView>) -> Option<AssetFieldsView>
    decreases assets.len(),
{
    if assets.len() == 0 {
        None
    } else if assets[0].0 == Some(asset_name()) {
        Some(assets[0])
    } else {
        find_asset(assets.skip(1))
    }
}

/// What a release's asset says of the binary, or why it cannot be used.
pub open spec fn asset_of(a: AssetFieldsView) -> Result<AssetView, Seq<char>> {
    match a.1 {
        None => Err("Binary size missing"@),
        Some(size) => if size == 0 || size > MAX_SIZE {
            Err("Binary size is invalid"@)
        } else {
            match a.2 {
                None => Err("Binary checksum missing"@),
                Some(d) => match strip_prefix(d, "sha256:"@) {
                    None => Err("Binary checksum missing"@),
                    Some(hex) => if encode_utf8(hex).len() != 64 || !all_hex(encode_utf8(hex)) {
                        Err("Binary checksum is invalid"@)
                    } else {
                        Ok((lowered(hex), size))
                    },
                },
            }
        },
    }
}

/// The release release data describes, or why it is refused: the tag must be `main-` and
/// twelve hexadecimal digits; an asset named for the handheld must give a size up to
/// `MAX_SIZE` and a SHA-256 digest.
pub open spec fn release_of(
    fields: Option<(Option<Seq<char>>, Option<Seq<char>>, Option<Seq<AssetFieldsView>>)>,
) -> Result<ReleaseView, Seq<char>> {
    match fields {
        None => Err("Invalid release data"@),
        Some((tag, body, assets)) => match tag {
            None => Err("Release tag missing"@),
            Some(t) => match strip_prefix(t, "main-"@) {
                None => Err("Unexpected release tag"@),
                Some(hash) => if encode_utf8(hash).len() != 12 || !all_hex(encode_utf8(hash)) {
                    Err("Unexpected release tag"@)
                } else {
                    let notes = note_lines(
                        match body {
                            Some(b) => b,
                            None => seq![],
                        },
                    );
                    let found = match assets {
                        Some(v) => find_asset(v),
                        None => None,
                    };
                    match found {
                        None => Ok((t, notes, None)),
                        Some(a) => match asset_of(a) {
                            Err(e) => Err(e),
                            Ok(av) => Ok((t, notes, Some(av))),
                        },
                    }
                },
            },
        },
    }
}

pub open spec fn release_result_view(r: Result<Release, String>) -> Result<ReleaseView, Seq<char>> {
    match r {
        Ok(rel) => Ok(release_view(rel)),
        Err(e) => Err(e@),
    }
}

fn hex_bytes(b: &[u8]) -> (r: bool)
    ensures
        r == all_hex(b@),
{
    let mut i: usize = 0;
    while i < b.len()
        invariant
            i <= b@.len(),
            forall|j: int| 0 <= j < i ==> is_hex_byte(#[trigger] b@[j]),
        decreases b@.len() - i,
    {
        if crate::text::hex_digit(b[i]).is_none() {
            return false;
        }
        i += 1;
    }
    true
}

fn lower_chars(s: &[char]) -> (out: String)
    ensures
        out@ == lowered(s@),
{
    let mut v: Vec<char> = Vec::new();
    let mut i: usize = 0;
    while i < s.len()
        invariant
            i <= s@.len(),
            v@ == lowered(s@.take(i as int)),
        decreases s@.len() - i,
    {
        let c = s[i];
        let l = if 'A' <= c && c <= 'Z' {
            let code = (c as u32) + 32;
            (code as u8) as char
        } else {
            c
        };
        assert(l == ascii_lower(c));
        v.push(l);
        assert(lowered(s@.take(i + 1)) =~= lowered(s@.take(i as int)).push(ascii_lower(c)));
        i += 1;
    }
    assert(s@.take(s@.len() as int) =~= s@);
    from_chars(v.as_slice())
}

fn strip_hashes_exec(s: &[char]) -> (out: Vec<char>)
    ensures
        out@ == strip_hashes(s@),
{
    let mut a: usize = 0;
    assert(s@.skip(0) =~= s@);
    while a < s.len() && s[a] == '#'
        invariant
            a <= s@.len(),
            strip_hashes(s@) == strip_hashes(s@.skip(a as int)),
        decreases s@.len() - a,
    {
        assert(s@.skip(a as int).skip(1) =~= s@.skip(a + 1));
        a += 1;
    }
    let out = copy_range(s, a, s.len());
    assert(out@ =~= s@.skip(a as int));
    out
}

fn drop_ticks_exec(s: &[char]) -> (out: Vec<char>)
    ensures
        out@ == drop_ticks(s@),
{
    let mut out: Vec<char> = Vec::new();
    let mut i: usize = 0;
    while i < s.len()
        invariant
            i <= s@.len(),
            out@ == drop_ticks(s@.take(i as int)),
        decreases s@.len() - i,
    {
        assert(s@.take(i + 1).drop_last() =~= s@.take(i as int));
        if s[i] != '`' {
            out.push(s[i]);
        }
        i += 1;
    }
    assert(s@.take(s@.len() as int) =~= s@);
    out
}

/// The notes a release body shows, line by line.
pub fn note_paragraphs(body: &str) -> (notes: Vec<String>)
    ensures
        strings_view(notes@) == note_lines(body@),
{
    let chars = to_chars(body);
    let raw = split_lines(chars.as_slice());
    let ghost ls = raw@.map_values(|v: Vec<char>| v@);
    let mut notes: Vec<String> = Vec::new();
    let mut i: usize = 0;
    while i < raw.len()
        invariant
            i <= raw@.len(),
            ls == raw@.map_values(|v: Vec<char>| v@),
            ls == lines(body@),
            strings_view(notes@) == notes_fold(ls.take(i as int)),
        decreases raw@.len() - i,
    {
        proof {
            assert(ls.take(i + 1).drop_last() =~= ls.take(i as int));
            assert(ls.take(i + 1).last() == raw@[i as int]@);
        }
        let t = trim_chars(raw[i].as_slice());
        let h = strip_hashes_exec(t.as_slice());
        let t2 = trim_chars(h.as_slice());
        let line = drop_ticks_exec(t2.as_slice());
        let ghost before = strings_view(notes@);
        if line.len() == 0 {
            let n = notes.len();
            if n > 0 && notes[n - 1].as_str().as_bytes().len() > 0 {
                assert(before.last() == notes@[n - 1]@);
                notes.push(String::new());
                assert(strings_view(notes@) =~= before.push(seq![]));
            } else {
                proof {
                    if n > 0 {
                        assert(before.last() == notes@[n - 1]@);
                        assert(encode_utf8(before.last()).len() == 0);
                        if before.last().len() > 0 {
                            vstd::utf8::encode_utf8_first_scalar(before.last());
                        }
                    }
                }
            }
        } else {
            let text = from_chars(line.as_slice());
            notes.push(to_uppercase(text.as_str()));
            assert(strings_view(notes@) =~= before.push(uppercase(line@)));
        }
        i += 1;
    }
    assert(ls.take(raw@.len() as int) =~= ls);
    if notes.len() == 0 {
        let mut v: Vec<String> = Vec::new();
        v.push(owned("No release notes"));
        assert(strings_view(v@) =~= seq!["No release notes"@]);
        return v;
    }
    notes
}

fn find_asset_exec(assets: &Vec<AssetFields>) -> (r: Option<usize>)
    ensures
        match find_asset(assets@.map_values(|a: AssetFields| asset_fields_view(a))) {
            Some(a) => r matches Some(k) && k < assets@.len() && asset_fields_view(assets@[k as int]) == a,
            None => r is None,
        },
{
    let ghost all = assets@.map_values(|a: AssetFields| asset_fields_view(a));
    let mut i: usize = 0;
    assert(all.skip(0) =~= all);
    while i < assets.len()
        invariant
            i <= assets@.len(),
            all == assets@.map_values(|a: AssetFields| asset_fields_view(a)),
            find_asset(all) == find_asset(all.skip(i as int)),
        decreases assets@.len() - i,
    {
        assert(all.skip(i as int)[0] == all[i as int]);
        let hit = match &assets[i].name {
            Some(n) => {
                let c = to_chars(n.as_str());
                crate::text::chars_are(c.as_slice(), "slot-h700")
            },
            None => false,
        };
        if hit {
            return Some(i);
        }
        assert(all.skip(i as int).skip(1) =~= all.skip(i + 1));
        i += 1;
    }
    assert(all.skip(i as int) =~= seq![]);
    None
}

fn asset_from(a: &AssetFields) -> (r: Result<Asset, String>)
    ensures
        match asset_of(asset_fields_view(*a)) {
            Ok(av) => r matches Ok(x) && (x.digest@, x.size) == av,
            Err(e) => r matches Err(m) && m@ == e,
        },
{
    let size = match a.size {
        Some(s) => s,
        None => return Err(owned("Binary size missing")),
    };
    if size == 0 || size > MAX_SIZE {
        return Err(owned("Binary size is invalid"));
    }
    let d = match &a.digest {
        Some(d) => to_chars(d.as_str()),
        None => return Err(owned("Binary checksum missing")),
    };
    let hex = match strip_prefix_chars(d.as_slice(), "sha256:") {
        Some(h) => h,
        None => return Err(owned("Binary checksum missing")),
    };
    let hs = from_chars(hex.as_slice());
    let hb = hs.as_str().as_bytes();
    if hb.len() != 64 || !hex_bytes(hb) {
        return Err(owned("Binary checksum is invalid"));
    }
    Ok(Asset { digest: lower_chars(hex.as_slice()), size })
}

/// The release release data describes, or why it is refused; see `release_of`.
pub fn parse_release(fields: Option<ReleaseFields>) -> (r: Result<Release, String>)
    ensures
        release_result_view(r) == release_of(release_fields_view(fields)),
{
    let f = match fields {
        Some(f) => f,
        None => return Err(owned("Invalid release data")),
    };
    let tag = match f.tag {
        Some(t) => t,
        None => return Err(owned("Release tag missing")),
    };
    let tc = to_chars(tag.as_str());
    let hash = match strip_prefix_chars(tc.as_slice(), "main-") {
        Some(h) => h,
        None => return Err(owned("Unexpected release tag")),
    };
    let hs = from_chars(hash.as_slice());
    let hb = hs.as_str().as_bytes();
    if hb.len() != 12 || !hex_bytes(hb) {
        return Err(owned("Unexpected release tag"));
    }
    let notes = match &f.body {
        Some(b) => note_paragraphs(b.as_str()),
        None => note_paragraphs(""),
    };
    proof {
        if f.body is None {
            reveal_strlit("");
            assert(""@ =~= Seq::<char>::empty());
        }
    }
    let found = match &f.assets {
        Some(v) => match find_asset_exec(v) {
            Some(k) => Some(&v[k]),
            None => None,
        },
        None => None,
    };
    match found {
        None => Ok(Release { tag, notes, asset: None }),
        Some(a) => match asset_from(a) {
            Ok(x) => Ok(Release { tag, notes, asset: Some(x) }),
            Err(e) => Err(e),
        },
    }
}

/// The release the data a release query returned describes, read with serde_json; see
/// `release_of`.
pub fn release_from_json(json: &[u8]) -> (r: Result<Release, String>)
    ensures
        release_result_view(r) == release_of(release_json(json@)),
{
    let fields = release_fields(json);
    parse_release(fields)
}

// ---------------------------------------------------------------------------------------------
// Checking a download.
// ---------------------------------------------------------------------------------------------

/// The first bytes of a 64-bit little-endian AArch64 ELF executable, as far as they decide it.
pub open spec fn aarch64_header(h: Seq<u8>) -> bool {
    &&& h[0] == 0x7f && h[1] == 0x45 && h[2] == 0x4c && h[3] == 0x46
    &&& h[4] == 2
    &&& h[5] == 1
    &&& h[18] == 183 && h[19] == 0
}

/// Whether the first twenty bytes of a binary are an AArch64 ELF's.
pub fn header_is_aarch64(h: &[u8; 20]) -> (b: bool)
    ensures
        b == aarch64_header(h@),
{
    h[0] == 0x7f && h[1] == 0x45 && h[2] == 0x4c && h[3] == 0x46 && h[4] == 2 && h[5] == 1 && h[18] == 183
        && h[19] == 0
}

/// The check of a binary's first twenty bytes, with the message a download gets.
pub fn verify_header(h: &[u8; 20]) -> (r: Result<(), String>)
    ensures
        r is Ok <==> aarch64_header(h@),
        r matches Err(m) ==> m@ == "Downloaded binary is not an AArch64 Slot+ build"@,
{
    if header_is_aarch64(h) {
        Ok(())
    } else {
        Err(owned("Downloaded binary is not an AArch64 Slot+ build"))
    }
}

/// Whether the checksum tool's output starts with the expected digest.
pub fn digest_matches(output: &[u8], digest: &str) -> (b: bool)
    ensures
        b == has_prefix(output@, digest.spec_bytes()),
{
    let d = digest.as_bytes();
    if d.len() > output.len() {
        return false;
    }
    let mut i: usize = 0;
    while i < d.len()
        invariant
            d@ == digest.spec_bytes(),
            d@.len() <= output@.len(),
            i <= d@.len(),
            forall|j: int| 0 <= j < i ==> output@[j] == d@[j],
        decreases d@.len() - i,
    {
        if output[i] != d[i] {
            assert(output@.take(d@.len() as int)[i as int] != d@[i as int]);
            return false;
        }
        i += 1;
    }
    assert(output@.take(d@.len() as int) =~= d@);
    true
}

/// A staged test build's size is acceptable: nonempty and at most `MAX_SIZE`.
pub fn build_size_ok(len: u64) -> (b: bool)
    ensures
        b == (len != 0 && len <= MAX_SIZE),
{
    len != 0 && len <= MAX_SIZE
}

// ---------------------------------------------------------------------------------------------
// The update screen.
// ---------------------------------------------------------------------------------------------

/// What a worker reports: a release checked, and whether it is the running build; or an
/// update installed.
pub enum Outcome {
    Checked(Release, bool),
    Installed,
}

pub enum OutcomeView {
    Checked(ReleaseView, bool),
    Installed,
}

pub open spec fn outcome_view(o: Result<Outcome, String>) -> Result<OutcomeView, Seq<char>> {
    match o {
        Ok(Outcome::Checked(r, c)) => Ok(OutcomeView::Checked(release_view(r), c)),
        Ok(Outcome::Installed) => Ok(OutcomeView::Installed),
        Err(e) => Err(e@),
    }
}

/// The check's answer for release data, against the hash of the running build: the release
/// and whether its tag names this build.
pub fn check_release(json: &[u8], current_hash: &str) -> (r: Result<Outcome, String>)
    ensures
        outcome_view(r) == match release_of(release_json(json@)) {
            Ok(rv) => Ok(OutcomeView::Checked(rv, has_prefix(rv.0.skip(5), current_hash@))),
            Err(e) => Err(e),
        },
{
    match release_from_json(json) {
        Ok(release) => {
            let tag = to_chars(release.tag.as_str());
            let h = to_chars(current_hash);
            let current = if tag.len() >= 5 {
                let rest = copy_range(tag.as_slice(), 5, tag.len());
                assert(rest@ =~= tag@.skip(5));
                crate::text::starts_with_chars(rest.as_slice(), h.as_slice())
            } else {
                false
            };
            proof {
                let t = release.tag@;
                assert(t.len() >= 5) by {
                    assert(has_prefix(t, "main-"@));
                    reveal_strlit("main-");
                }
            }
            Ok(Outcome::Checked(release, current))
        },
        Err(e) => Err(e),
    }
}

/// Where the screen is.
pub enum State {
    Checking,
    Available(Release),
    Downloading,
    UpToDate(Release),
    Installed,
    Error(String),
}

pub enum StateView {
    Checking,
    Available(ReleaseView),
    Downloading,
    UpToDate(ReleaseView),
    Installed,
    Error(Seq<char>),
}

pub open spec fn state_view(s: State) -> StateView {
    match s {
        State::Checking => StateView::Checking,
        State::Available(r) => StateView::Available(release_view(r)),
        State::Downloading => StateView::Downloading,
        State::UpToDate(r) => StateView::UpToDate(release_view(r)),
        State::Installed => StateView::Installed,
        State::Error(m) => StateView::Error(m@),
    }
}

/// A direction held down on the notes: which, since when, and when it next moves.
#[derive(Clone, Copy)]
pub struct Hold {
    pub down: bool,
    pub since: Millis,
    pub next: Millis,
}

/// The updater: its state, the worker it waits on, its revision, how far the notes are
/// scrolled and the direction held, if any.
pub struct UpdateMenu {
    pub state: State,
    pub worker: Option<std::sync::mpsc::Receiver<Result<Outcome, String>>>,
    pub revision: u64,
    pub scroll: usize,
    pub hold: Option<Hold>,
}

pub struct UpdateView {
    pub state: StateView,
    pub watching: bool,
    pub revision: u64,
    pub scroll: int,
    pub hold: Option<Hold>,
}

impl View for UpdateMenu {
    type V = UpdateView;

    open spec fn view(&self) -> UpdateView {
        UpdateView {
            state: state_view(self.state),
            watching: self.worker is Some,
            revision: self.revision,
            scroll: self.scroll as int,
            hold: self.hold,
        }
    }
}

/// The notes on screen, when a release is shown.
pub open spec fn shown_release(s: StateView) -> Option<ReleaseView> {
    match s {
        StateView::Available(r) => Some(r),
        StateView::UpToDate(r) => Some(r),
        _ => None,
    }
}

pub open spec fn sat_sub(a: int, b: int) -> int {
    if a > b { a - b } else { 0 }
}

/// Ten note lines fit on screen; the last scroll position shows the last ten.
pub open spec fn last_scroll(notes: Seq<Seq<char>>) -> int {
    sat_sub(notes.len() as int, 10)
}

/// One line down or up the notes, stopping at either end; a change is a new revision.
pub open spec fn scroll_step(v: UpdateView, down: bool) -> UpdateView {
    match shown_release(v.state) {
        None => v,
        Some(r) => {
            let next = if down {
                if v.scroll + 1 < last_scroll(r.1) { v.scroll + 1 } else { last_scroll(r.1) }
            } else {
                sat_sub(v.scroll, 1)
            };
            if next != v.scroll {
                UpdateView { scroll: next, revision: next_rev(v.revision), ..v }
            } else {
                v
            }
        },
    }
}

/// The notes jumped to their top or their last page.
pub open spec fn jump_step(v: UpdateView, bottom: bool) -> UpdateView {
    match shown_release(v.state) {
        None => v,
        Some(r) => {
            let next = if bottom { last_scroll(r.1) } else { 0 };
            if v.scroll != next {
                UpdateView { scroll: next, revision: next_rev(v.revision), ..v }
            } else {
                v
            }
        },
    }
}

/// A press moves at once and starts a hold that repeats after 350 ms; a press of the
/// direction already held does nothing.
pub open spec fn press_step(v: UpdateView, down: bool, now: Millis) -> UpdateView {
    match v.hold {
        Some(h) if h.down == down => v,
        _ => UpdateView { hold: Some(Hold { down, since: now, next: (now + 350) as u64 }), ..scroll_step(v, down) },
    }
}

/// Letting go of the direction held ends the hold.
pub open spec fn release_step(v: UpdateView, down: bool) -> UpdateView {
    match v.hold {
        Some(h) if h.down == down => UpdateView { hold: None, ..v },
        _ => v,
    }
}

/// A held direction repeats once it is due, faster the longer it is held: 200 ms less a
/// twentieth of the time held, never under 50 ms.
pub open spec fn repeat_interval(now: Millis, since: Millis) -> int {
    let slower = sat_sub(200, sat_sub(now as int, since as int) / 20);
    if slower > 50 { slower } else { 50 }
}

pub open spec fn tick_step(v: UpdateView, now: Millis) -> UpdateView {
    match v.hold {
        None => v,
        Some(h) => if now >= h.next {
            UpdateView {
                hold: Some(Hold { next: (now + repeat_interval(now, h.since)) as u64, ..h }),
                ..scroll_step(v, h.down)
            }
        } else {
            v
        },
    }
}

/// The message of a screen with no place to run updates.
pub open spec fn unavailable() -> Seq<char> {
    "Updates require Slot+ on BaseOS or AGS-102"@
}

/// Opening the updater starts a check, or says none can run here.
pub open spec fn open_step(v: UpdateView, available: bool) -> UpdateView {
    UpdateView {
        state: if available { StateView::Checking } else { StateView::Error(unavailable()) },
        revision: next_rev(v.revision),
        scroll: 0,
        hold: None,
        ..v
    }
}

/// What a worker's report makes of the screen.
pub open spec fn finish_step(v: UpdateView, r: Result<OutcomeView, Seq<char>>) -> UpdateView {
    UpdateView {
        state: match r {
            Ok(OutcomeView::Checked(rel, false)) => StateView::Available(rel),
            Ok(OutcomeView::Checked(rel, true)) => StateView::UpToDate(rel),
            Ok(OutcomeView::Installed) => StateView::Installed,
            Err(e) => StateView::Error(e),
        },
        watching: false,
        revision: next_rev(v.revision),
        ..v
    }
}

/// What one look at the worker's channel makes of the screen: a report is taken in, nothing
/// waiting leaves the screen as it is, and a worker gone without a report is an error.
pub open spec fn polled_step(v: UpdateView, p: Polled<Result<Outcome, String>>) -> UpdateView {
    match p {
        Polled::Ready(r) => finish_step(v, outcome_view(r)),
        Polled::Empty => v,
        Polled::Closed => finish_step(v, Err("Update worker stopped"@)),
    }
}

/// Installing is possible from a release that offers the binary, with a card to write to.
pub open spec fn can_install(v: UpdateView, has_root: bool) -> bool {
    v.state matches StateView::Available(r) && r.2 is Some && has_root
}

impl Default for UpdateMenu {
    fn default() -> (m: UpdateMenu)
        ensures
            m@.state == StateView::Checking,
            !m@.watching,
            m@.revision == 1,
            m@.scroll == 0,
            m@.hold is None,
    {
        UpdateMenu { state: State::Checking, worker: None, revision: 1, scroll: 0, hold: None }
    }
}

impl UpdateMenu {
    /// Starts over: a new check when updates can run here (`available`), else the reason
    /// they cannot. The caller starts the check's worker and hands it to `watch`.
    pub fn open(&mut self, available: bool)
        ensures
            final(self)@ == open_step(old(self)@, available),
    {
        self.revision = bump(self.revision);
        self.state = State::Checking;
        self.scroll = 0;
        self.hold = None;
        if !available {
            self.state = State::Error(owned("Updates require Slot+ on BaseOS or AGS-102"));
        }
    }

    /// Waits on this worker's report from now on.
    pub fn watch(&mut self, worker: std::sync::mpsc::Receiver<Result<Outcome, String>>)
        ensures
            final(self)@ == (UpdateView { watching: true, ..old(self)@ }),
    {
        self.worker = Some(worker);
    }

    /// A to install: when a release offers the binary and there is a card, the screen turns
    /// to the download and the release to install is handed back for the caller's worker.
    pub fn confirm(&mut self, has_root: bool) -> (r: Option<Release>)
        ensures
            can_install(old(self)@, has_root) ==> {
                &&& r matches Some(rel) && old(self)@.state == StateView::Available(release_view(rel))
                &&& final(self)@ == (UpdateView {
                    state: StateView::Downloading,
                    hold: None,
                    revision: next_rev(old(self)@.revision),
                    ..old(self)@
                })
            },
            !can_install(old(self)@, has_root) ==> r is None && final(self)@ == old(self)@,
    {
        let release = match &self.state {
            State::Available(release) => {
                if release.asset.is_none() || !has_root {
                    return None;
                }
                copy_release(release)
            },
            _ => return None,
        };
        self.state = State::Downloading;
        self.hold = None;
        self.revision = bump(self.revision);
        Some(release)
    }

    /// Takes in a worker's report.
    pub fn finish(&mut self, result: Result<Outcome, String>)
        ensures
            final(self)@ == finish_step(old(self)@, outcome_view(result)),
    {
        self.worker = None;
        self.state = match result {
            Ok(Outcome::Checked(release, false)) => State::Available(release),
            Ok(Outcome::Checked(release, true)) => State::UpToDate(release),
            Ok(Outcome::Installed) => State::Installed,
            Err(error) => State::Error(error),
        };
        self.revision = bump(self.revision);
    }

    /// Takes in the worker's report if one has come; a worker gone without one is an error.
    /// Whether anything has come is up to the worker: the screen moves on as `polled_step`
    /// says for whatever the worker's channel held.
    pub fn poll(&mut self)
        ensures
            !old(self)@.watching ==> final(self)@ == old(self)@,
            old(self)@.watching ==> exists|p: Polled<Result<Outcome, String>>|
                final(self)@ == #[trigger] polled_step(old(self)@, p),
    {
        let polled = match &self.worker {
            Some(worker) => channel_try_recv(worker),
            None => return,
        };
        match polled {
            Polled::Ready(result) => {
                let ghost p = Polled::Ready(result);
                self.finish(result);
                assert(self@ == polled_step(old(self)@, p));
            },
            Polled::Empty => {
                let ghost p = Polled::<Result<Outcome, String>>::Empty;
                assert(self@ == polled_step(old(self)@, p));
            },
            Polled::Closed => {
                let e = owned("Update worker stopped");
                self.finish(Err(e));
                let ghost p = Polled::<Result<Outcome, String>>::Closed;
                assert(self@ == polled_step(old(self)@, p));
            },
        }
    }

    /// A check or a download is under way.
    pub fn busy(&self) -> (b: bool)
        ensures
            b == (self@.state is Checking || self@.state is Downloading),
    {
        match self.state {
            State::Checking | State::Downloading => true,
            _ => false,
        }
    }

    pub fn downloading(&self) -> (b: bool)
        ensures
            b == self@.state is Downloading,
    {
        match self.state {
            State::Downloading => true,
            _ => false,
        }
    }

    pub fn failed(&self) -> (b: bool)
        ensures
            b == self@.state is Error,
    {
        match self.state {
            State::Error(_) => true,
            _ => false,
        }
    }

    pub fn installed(&self) -> (b: bool)
        ensures
            b == self@.state is Installed,
    {
        match self.state {
            State::Installed => true,
            _ => false,
        }
    }

    /// Changes whenever the screen does.
    pub fn revision(&self) -> (r: u64)
        ensures
            r == self@.revision,
    {
        self.revision
    }

    fn notes_len(&self) -> (n: Option<usize>)
        ensures
            match shown_release(self@.state) {
                Some(r) => n matches Some(k) && k == r.1.len(),
                None => n is None,
            },
    {
        match &self.state {
            State::Available(r) | State::UpToDate(r) => {
                assert(strings_view(r.notes@).len() == r.notes@.len());
                Some(r.notes.len())
            },
            _ => None,
        }
    }

    /// One line down (or up) the notes.
    pub fn scroll(&mut self, down: bool)
        requires
            old(self)@.scroll < usize::MAX,
        ensures
            final(self)@ == scroll_step(old(self)@, down),
    {
        let len = match self.notes_len() {
            Some(n) => n,
            None => return,
        };
        let ghost notes = (shown_release(self@.state)->0).1;
        assert(len == notes.len());
        let last = if len > 10 { len - 10 } else { 0 };
        assert(last == last_scroll(notes));
        let next = if down {
            if self.scroll + 1 < last { self.scroll + 1 } else { last }
        } else if self.scroll > 0 {
            self.scroll - 1
        } else {
            0
        };
        if next != self.scroll {
            self.scroll = next;
            self.revision = bump(self.revision);
        }
    }

    /// Up or Down pressed at `now`.
    pub fn press(&mut self, down: bool, now: Millis)
        requires
            old(self)@.scroll < usize::MAX,
            now <= u64::MAX - 350,
        ensures
            final(self)@ == press_step(old(self)@, down, now),
    {
        match self.hold {
            Some(hold) => {
                if hold.down == down {
                    return;
                }
            },
            None => {},
        }
        self.scroll(down);
        self.hold = Some(Hold { down, since: now, next: now + 350 });
    }

    /// Up or Down let go.
    pub fn release(&mut self, down: bool)
        ensures
            final(self)@ == release_step(old(self)@, down),
    {
        match self.hold {
            Some(hold) => {
                if hold.down == down {
                    self.hold = None;
                }
            },
            None => {},
        }
    }

    /// The frame clock reached `now`: a held direction repeats when due.
    pub fn tick(&mut self, now: Millis)
        requires
            old(self)@.scroll < usize::MAX,
            now <= u64::MAX - 200,
        ensures
            final(self)@ == tick_step(old(self)@, now),
    {
        let mut hold = match self.hold {
            Some(hold) => hold,
            None => return,
        };
        if now >= hold.next {
            self.scroll(hold.down);
            let elapsed = if now > hold.since { now - hold.since } else { 0 };
            let cut = elapsed / 20;
            let slower = if cut < 200 { 200 - cut } else { 0 };
            let interval = if slower > 50 { slower } else { 50 };
            hold.next = now + interval;
            self.hold = Some(hold);
        }
    }

    /// Left or Right: the top of the notes or their last page.
    pub fn jump(&mut self, bottom: bool)
        ensures
            final(self)@ == jump_step(old(self)@, bottom),
    {
        let len = match self.notes_len() {
            Some(n) => n,
            None => return,
        };
        let next = if bottom {
            if len > 10 { len - 10 } else { 0 }
        } else {
            0
        };
        if self.scroll != next {
            self.scroll = next;
            self.revision = bump(self.revision);
        }
    }
}

/// The line under the title.
pub open spec fn update_message(s: StateView) -> Seq<char> {
    match s {
        StateView::Checking => "Checking the latest release..."@,
        StateView::Available(r) => if r.2 is Some {
            r.0 + " is available"@
        } else {
            "Release has no Slot+ binary"@
        },
        StateView::Downloading => "Downloading and verifying..."@,
        StateView::UpToDate(_) => "Slot+ is up to date"@,
        StateView::Installed => "Update installed. Restarting Slot+..."@,
        StateView::Error(m) => m,
    }
}

/// The legend at the foot of the screen.
pub open spec fn update_hint(s: StateView) -> Seq<char> {
    match s {
        StateView::Checking => "B Back"@,
        StateView::Available(r) => if r.2 is Some {
            "Up/Down Notes   A Install   B Back"@
        } else {
            "Up/Down Notes   B Back"@
        },
        StateView::Downloading => "Please wait"@,
        StateView::UpToDate(_) => "Up/Down Notes   B Back"@,
        StateView::Installed => "Please wait"@,
        StateView::Error(_) => "A Retry   B Back"@,
    }
}

/// The note lines in view: up to ten from the scroll position, 25 px apart.
pub open spec fn note_rows(notes: Seq<Seq<char>>, scroll: int) -> Seq<TextView> {
    let first = if scroll < notes.len() { scroll } else { notes.len() as int };
    let count = if notes.len() - first < 10 { notes.len() - first } else { 10 };
    Seq::new(count as nat, |k: int| (notes[first + k], 28i32, (156 + k * 25) as i32, 19u32, 584i32, bright()))
}

/// Every line of type on the updater, in drawing order.
pub open spec fn update_labels(v: UpdateView) -> Seq<TextView> {
    seq![
        ("Update Slot+"@, 28i32, 22i32, 30u32, 584i32, bright()),
        (update_message(v.state), 28i32, 78i32, 25u32, 584i32, bright()),
    ] + match shown_release(v.state) {
        Some(r) => seq![("RELEASE NOTES"@, 28i32, 124i32, 20u32, 584i32, dim())] + note_rows(r.1, v.scroll),
        None => seq![],
    } + seq![(update_hint(v.state), 28i32, 433i32, 20u32, 584i32, bright())]
}

/// The scroll bar beside notes longer than a screen: the thumb's offset down its 245 px track
/// and its length, a tenth of the track per screen of notes but at least 20 px.
pub open spec fn scroll_bar(v: UpdateView) -> Option<(int, int)> {
    match shown_release(v.state) {
        Some(r) => if r.1.len() > 10 {
            let len = r.1.len() as int;
            let thumb: int = if 2450int / len > 20 { 2450int / len } else { 20int };
            Some(((245 - thumb) * v.scroll / (len - 10), thumb))
        } else {
            None
        },
        None => None,
    }
}

/// The bar's arithmetic stays within 32 bits, as the screen's coordinates must.
pub open spec fn bar_fits(v: UpdateView) -> bool {
    match shown_release(v.state) {
        Some(r) => r.1.len() > 10 ==> {
            let len = r.1.len() as int;
            let thumb: int = if 2450int / len > 20 { 2450int / len } else { 20int };
            &&& len <= i32::MAX
            &&& v.scroll <= i32::MAX
            &&& (245 - thumb) * v.scroll <= i32::MAX
            &&& 156 + (245 - thumb) * v.scroll / (len - 10) + thumb <= i32::MAX
        },
        None => true,
    }
}

/// A byte of the updater's raster: the thumb over the track over the ground.
pub open spec fn update_face_byte(v: UpdateView, i: int) -> u8 {
    match scroll_bar(v) {
        None => ground()[i % 4],
        Some((pos, thumb)) => if in_rect(640, i, 620, 628, clip_lo(156 + pos), clip_hi(156 + pos + thumb, 480)) {
            seq![229u8, 219u8, 191u8, 255u8][i % 4]
        } else if in_rect(640, i, 620, 628, 156, 401) {
            seq![65u8, 70u8, 85u8, 255u8][i % 4]
        } else {
            ground()[i % 4]
        },
    }
}

impl UpdateMenu {
    fn message_text(&self) -> (m: String)
        ensures
            m@ == update_message(self@.state),
    {
        match &self.state {
            State::Checking => owned("Checking the latest release..."),
            State::Available(r) => if r.asset.is_some() {
                let mut m = owned(r.tag.as_str());
                m.append(" is available");
                m
            } else {
                owned("Release has no Slot+ binary")
            },
            State::Downloading => owned("Downloading and verifying..."),
            State::UpToDate(_) => owned("Slot+ is up to date"),
            State::Installed => owned("Update installed. Restarting Slot+..."),
            State::Error(m) => owned(m.as_str()),
        }
    }

    fn hint_text(&self) -> (h: &'static str)
        ensures
            h@ == update_hint(self@.state),
    {
        match &self.state {
            State::Checking => "B Back",
            State::Available(r) => if r.asset.is_some() {
                "Up/Down Notes   A Install   B Back"
            } else {
                "Up/Down Notes   B Back"
            },
            State::Downloading => "Please wait",
            State::UpToDate(_) => "Up/Down Notes   B Back",
            State::Installed => "Please wait",
            State::Error(_) => "A Retry   B Back",
        }
    }

    /// The lines of type the updater sets, in the order they are drawn.
    pub fn labels(&self) -> (runs: Vec<TextRun>)
        ensures
            runs_view(runs@) == update_labels(self@),
    {
        let mut runs: Vec<TextRun> = Vec::new();
        let r0 = run(owned("Update Slot+"), 28, 22, 30, 584, [240, 240, 244]);
        let r1 = run(self.message_text(), 28, 78, 25, 584, [240, 240, 244]);
        assert(r0@.5 =~= bright());
        assert(r1@.5 =~= bright());
        runs.push(r0);
        runs.push(r1);
        let ghost head = runs_view(runs@);
        assert(head =~= seq![r0@, r1@]);
        match &self.state {
            State::Available(rel) | State::UpToDate(rel) => {
                let r2 = run(owned("RELEASE NOTES"), 28, 124, 20, 584, [185, 190, 200]);
                assert(r2@.5 =~= dim());
                runs.push(r2);
                let ghost notes = strings_view(rel.notes@);
                let ghost rows = note_rows(notes, self.scroll as int);
                let ghost top = runs_view(runs@);
                let n = rel.notes.len();
                let first = if self.scroll < n { self.scroll } else { n };
                let count = if n - first < 10 { n - first } else { 10 };
                let mut k: usize = 0;
                while k < count
                    invariant
                        k <= count,
                        n == rel.notes@.len(),
                        notes == strings_view(rel.notes@),
                        rows == note_rows(notes, self.scroll as int),
                        first == (if (self.scroll as int) < notes.len() { self.scroll as int } else { notes.len() as int }),
                        count == (if notes.len() - first < 10 { notes.len() - first } else { 10 }),
                        runs_view(runs@) == top + rows.take(k as int),
                    decreases count - k,
                {
                    let y = (156 + k * 25) as i32;
                    let r = run(owned(rel.notes[first + k].as_str()), 28, y, 19, 584, [240, 240, 244]);
                    assert(r@.5 =~= bright());
                    assert(r@ == rows[k as int]);
                    let ghost before = runs_view(runs@);
                    runs.push(r);
                    assert(rows.take(k + 1) =~= rows.take(k as int).push(rows[k as int]));
                    assert(runs_view(runs@) =~= before.push(r@));
                    k += 1;
                }
                assert(rows.take(count as int) =~= rows);
            },
            _ => {},
        }
        let ghost mid = runs_view(runs@);
        let r3 = run(owned(self.hint_text()), 28, 433, 20, 584, [240, 240, 244]);
        assert(r3@.5 =~= bright());
        runs.push(r3);
        assert(runs_view(runs@) =~= mid.push(r3@));
        assert(runs_view(runs@) =~= update_labels(self@));
        runs
    }

    /// The updater's raster: the ground, and the scroll bar beside long notes. The lines of
    /// `labels` are set over it.
    pub fn face(&self) -> (face: UndoFace)
        requires
            bar_fits(self@),
        ensures
            face.w == OUT_W,
            face.h == OUT_H,
            well_formed(&face),
            forall|i: int| 0 <= i < face.rgba@.len() ==> #[trigger] face.rgba@[i] == update_face_byte(self@, i),
    {
        let mut face = blank_face();
        let len = match self.notes_len() {
            Some(n) => n,
            None => return face,
        };
        if len <= 10 {
            return face;
        }
        let ghost notes = (shown_release(self@.state)->0).1;
        assert(len == notes.len());
        assert(len <= i32::MAX);
        let l = len as i64;
        let tall = 2450 / l;
        assert(tall <= 245) by (nonlinear_arith)
            requires
                l >= 11,
                tall == 2450i64 / l,
        ;
        let thumb: i64 = if tall > 20 { tall } else { 20 };
        let travel: i64 = 245 - thumb;
        assert(self.scroll as int == self@.scroll);
        assert(travel * (self.scroll as int) <= i32::MAX);
        assert(travel >= 0);
        let pos: i64 = travel * (self.scroll as i64) / (l - 10);
        assert(scroll_bar(self@) == Some((pos as int, thumb as int)));
        let ghost base = face.rgba@;
        fill(&mut face, 620, 156, 8, 245, [65, 70, 85, 255]);
        let ghost mid = face.rgba@;
        fill(&mut face, 620, (156 + pos) as i32, 8, thumb as i32, [229, 219, 191, 255]);
        proof {
            assert forall|i: int| 0 <= i < face.rgba@.len() implies #[trigger] face.rgba@[i] == update_face_byte(self@, i) by {
                assert(mid[i] == crate::face::filled(base, 640, 480, 620, 156, 8, 245, seq![65u8, 70u8, 85u8, 255u8], i));
            }
        }
        face
    }
}

/// The notes are scrolled no further than their last page.
pub open spec fn scroll_in_range(v: UpdateView) -> bool {
    match shown_release(v.state) {
        Some(r) => 0 <= v.scroll <= last_scroll(r.1),
        None => true,
    }
}

/// Scrolling, holding and jumping never scroll the notes past their last page, nor above
/// their first line.
pub proof fn lemma_scroll_stays_in_range(v: UpdateView, down: bool, now: Millis)
    requires
        scroll_in_range(v),
    ensures
        scroll_in_range(scroll_step(v, down)),
        scroll_in_range(jump_step(v, down)),
        scroll_in_range(press_step(v, down, now)),
        scroll_in_range(release_step(v, down)),
        scroll_in_range(tick_step(v, now)),
        scroll_in_range(open_step(v, down)),
{
    match v.hold {
        Some(h) => {
            assert(scroll_in_range(scroll_step(v, h.down)));
        },
        None => {},
    }
}

/// A held direction repeats faster the longer it is held, and never faster than every 50 ms.
pub proof fn lemma_hold_accelerates(since: Millis, earlier: Millis, later: Millis)
    requires
        earlier <= later,
    ensures
        repeat_interval(later, since) <= repeat_interval(earlier, since),
        50 <= repeat_interval(later, since) <= 200,
{
    assert(sat_sub(earlier as int, since as int) <= sat_sub(later as int, since as int));
    assert(sat_sub(earlier as int, since as int) / 20 <= sat_sub(later as int, since as int) / 20) by (nonlinear_arith)
        requires
            sat_sub(earlier as int, since as int) <= sat_sub(later as int, since as int),
            0 <= sat_sub(earlier as int, since as int),
    ;
}

} // verus!
