//! BaseOS home Wi-Fi: what a scan, a saved profile and a supplicant reply mean, and what is
//! written for a network. The worker that runs the system commands lives outside this crate;
//! every decision it takes from their text is made here.
use vstd::prelude::*;
use vstd::utf8::*;
use vstd::string::StringSliceAdditionalSpecFns;

use crate::sorting::{
    sort_by, lemma_insert_by_at, strict_weak_order, sorted_by, distinct_by, lemma_sort_by_sorted,
    lemma_sort_by_distinct,
};
use crate::text::{
    lemma_bytes_lt_irreflexive, lemma_bytes_lt_transitive, lemma_bytes_lt_total, lemma_bytes_lt_negative_transitive,
    owned, from_chars, is_hex_byte, hex_value, hex_digit, split_once, split_once_char, lines, split_lines,
    contains_seq, contains_chars, no_control, chars_free_of_control, string_from_utf8,
    bytes_lt, bytes_less, bytes_equal, to_chars, trim, trim_chars, has_prefix, strip_prefix, strip_prefix_chars,
    split_once_seq, find_chars, starts_with_chars, copy_range, chars_are, find_seq, occurs_at,
};

verus! {

broadcast use vstd::string::group_string_axioms;

/// The supplicant control directory this frontend owns.
pub const CONTROL: &'static str = "/run/slot-wifi";

/// The two lines every configuration this frontend writes starts with.
pub open spec fn header() -> Seq<char> {
    "ctrl_interface=/run/slot-wifi\nupdate_config=0\n"@
}

pub fn header_text() -> (s: String)
    ensures
        s@ == header(),
{
    owned("ctrl_interface=/run/slot-wifi\nupdate_config=0\n")
}

#[derive(Clone, Copy, Debug, PartialEq, Eq, Structural)]
pub enum Security {
    Open,
    Personal,
    Unsupported,
}

#[derive(Clone, Debug, PartialEq, Eq)]
pub struct Network {
    pub ssid: String,
    pub signal: i32,
    pub security: Security,
}

/// A network as the specifications see it: its name, signal and security.
pub type NetView = (Seq<char>, i32, Security);

impl View for Network {
    type V = NetView;

    open spec fn view(&self) -> NetView {
        (self.ssid@, self.signal, self.security)
    }
}

/// The same network, as a new value.
pub fn copy_network(n: &Network) -> (c: Network)
    ensures
        c@ == n@,
{
    Network { ssid: n.ssid.clone(), signal: n.signal, security: n.security }
}

// ---------------------------------------------------------------------------------------------
// Validation and the profile written for a network.
// ---------------------------------------------------------------------------------------------

/// A 64-digit hexadecimal key, taken as the PSK itself.
pub open spec fn is_hex_key(p: Seq<u8>) -> bool {
    p.len() == 64 && forall|i: int| 0 <= i < p.len() ==> is_hex_byte(#[trigger] p[i])
}

/// An 8 to 63 character passphrase of printable ASCII.
pub open spec fn is_passphrase(p: Seq<u8>) -> bool {
    8 <= p.len() <= 63 && forall|i: int| 0 <= i < p.len() ==> 32 <= #[trigger] p[i] <= 126
}

/// Why `validate` refuses a network and password, or `None` when it accepts them.
pub open spec fn validation_error(n: NetView, password: Seq<u8>) -> Option<Seq<char>> {
    if encode_utf8(n.0).len() == 0 || encode_utf8(n.0).len() > 32 {
        Some("Invalid network name"@)
    } else if n.2 == Security::Unsupported {
        Some("Only open and WPA/WPA2 personal networks are supported"@)
    } else if n.2 == Security::Personal && !is_hex_key(password) && !is_passphrase(password) {
        Some("Password needs 8-63 characters (or a 64-digit hex key)"@)
    } else {
        None
    }
}

fn all_hex(p: &[u8]) -> (b: bool)
    ensures
        b == forall|i: int| 0 <= i < p@.len() ==> is_hex_byte(#[trigger] p@[i]),
{
    let mut i: usize = 0;
    while i < p.len()
        invariant
            i <= p@.len(),
            forall|j: int| 0 <= j < i ==> is_hex_byte(#[trigger] p@[j]),
        decreases p@.len() - i,
    {
        if hex_digit(p[i]).is_none() {
            return false;
        }
        i += 1;
    }
    true
}

fn all_printable(p: &[u8]) -> (b: bool)
    ensures
        b == forall|i: int| 0 <= i < p@.len() ==> 32 <= #[trigger] p@[i] <= 126,
{
    let mut i: usize = 0;
    while i < p.len()
        invariant
            i <= p@.len(),
            forall|j: int| 0 <= j < i ==> 32 <= #[trigger] p@[j] <= 126,
        decreases p@.len() - i,
    {
        if p[i] < 32 || p[i] > 126 {
            return false;
        }
        i += 1;
    }
    true
}

fn hex_key(p: &[u8]) -> (b: bool)
    ensures
        b == is_hex_key(p@),
{
    p.len() == 64 && all_hex(p)
}

fn passphrase(p: &[u8]) -> (b: bool)
    ensures
        b == is_passphrase(p@),
{
    8 <= p.len() && p.len() <= 63 && all_printable(p)
}

/// Whether a network can be joined with this password: a name of 1 to 32 bytes, a supported
/// security, and for a personal network a passphrase or hexadecimal key.
pub fn validate(network: &Network, password: &str) -> (r: Result<(), String>)
    ensures
        match validation_error(network@, password.spec_bytes()) {
            Some(e) => r matches Err(m) && m@ == e,
            None => r is Ok,
        },
{
    let n = network.ssid.as_str().as_bytes().len();
    if n == 0 || n > 32 {
        return Err(owned("Invalid network name"));
    }
    match network.security {
        Security::Unsupported => {
            Err(owned("Only open and WPA/WPA2 personal networks are supported"))
        },
        Security::Personal => {
            let p = password.as_bytes();
            if !hex_key(p) && !passphrase(p) {
                Err(owned("Password needs 8-63 characters (or a 64-digit hex key)"))
            } else {
                Ok(())
            }
        },
        Security::Open => Ok(()),
    }
}

/// PBKDF2-HMAC-SHA1 of the password and salt over the given rounds, `len` bytes long.
pub uninterp spec fn pbkdf2_hmac_sha1(password: Seq<u8>, salt: Seq<u8>, rounds: u32, len: nat) -> Seq<u8>;

/// `pbkdf2::pbkdf2_hmac::<sha1::Sha1>` into a 32-byte buffer: the WPA PSK derivation. The
/// contract claims only that the buffer holds PBKDF2-HMAC-SHA1 of these arguments.
#[verifier::external_body]
fn pbkdf2_sha1_32(password: &[u8], salt: &[u8], rounds: u32) -> (key: [u8; 32])
    ensures
        key@ == pbkdf2_hmac_sha1(password@, salt@, rounds, 32),
{
    let mut key = [0u8; 32];
    pbkdf2::pbkdf2_hmac::<sha1::Sha1>(password, salt, rounds, &mut key);
    key
}

/// A nibble as a lowercase hexadecimal digit.
pub open spec fn nibble_char(v: int) -> char {
    if v < 10 {
        (48 + v) as char
    } else {
        (87 + v) as char
    }
}

/// The bytes as lowercase hexadecimal, two digits each, as `format!("{b:02x}")` writes them.
pub open spec fn hex_lower(b: Seq<u8>) -> Seq<char>
    decreases b.len(),
{
    if b.len() == 0 {
        seq![]
    } else {
        hex_lower(b.drop_last()) + seq![nibble_char((b.last() / 16) as int), nibble_char((b.last() % 16) as int)]
    }
}

fn nibble(v: u8) -> (c: char)
    requires
        v < 16,
    ensures
        c == nibble_char(v as int),
{
    if v < 10 {
        (48 + v) as char
    } else {
        (87 + v) as char
    }
}

/// The bytes in lowercase hexadecimal.
pub fn hex_chars(b: &[u8]) -> (out: Vec<char>)
    ensures
        out@ == hex_lower(b@),
        out@.len() == 2 * b@.len(),
{
    let mut out: Vec<char> = Vec::new();
    let mut i: usize = 0;
    while i < b.len()
        invariant
            i <= b@.len(),
            out@ == hex_lower(b@.take(i as int)),
            out@.len() == 2 * i,
        decreases b@.len() - i,
    {
        proof {
            assert(b@.take(i + 1).drop_last() =~= b@.take(i as int));
            assert(b@.take(i + 1).last() == b@[i as int]);
        }
        out.push(nibble(b[i] / 16));
        out.push(nibble(b[i] % 16));
        i += 1;
    }
    assert(b@.take(b@.len() as int) =~= b@);
    out
}

/// The key lines of a profile: `key_mgmt=NONE` for an open network, the PSK for a personal
/// one (the key itself, or derived from the passphrase and network name).
pub open spec fn key_lines(n: NetView, password: Seq<u8>, password_chars: Seq<char>) -> Seq<char> {
    if n.2 == Security::Open {
        "    key_mgmt=NONE\n"@
    } else {
        let psk = if is_hex_key(password) {
            password_chars
        } else {
            hex_lower(pbkdf2_hmac_sha1(password, encode_utf8(n.0), 4096, 32))
        };
        "    key_mgmt=WPA-PSK\n    psk="@ + psk + "\n"@
    }
}

/// The network block written for `n`: its name in hexadecimal, then its key lines.
pub open spec fn network_block(n: NetView, password: Seq<u8>, password_chars: Seq<char>) -> Seq<char> {
    "network={\n    ssid="@ + hex_lower(encode_utf8(n.0)) + "\n"@ + key_lines(n, password, password_chars) + "}\n"@
}

/// The configuration that joins `network`: the header and one network block. Names are
/// written in hexadecimal and passphrases only as derived keys, so neither can add lines.
pub fn profile(network: &Network, password: &str) -> (r: Result<String, String>)
    ensures
        match validation_error(network@, password.spec_bytes()) {
            Some(e) => r matches Err(m) && m@ == e,
            None => r matches Ok(s) && s@ == header() + network_block(
                network@,
                password.spec_bytes(),
                password@,
            ),
        },
{
    validate(network, password)?;
    let mut key = String::new();
    match network.security {
        Security::Open => {
            key.append("    key_mgmt=NONE\n");
        },
        Security::Unsupported => {
            return Err(owned("Only open and WPA/WPA2 personal networks are supported"));
        },
        Security::Personal => {
            let p = password.as_bytes();
            key.append("    key_mgmt=WPA-PSK\n    psk=");
            if hex_key(p) {
                key.append(password);
            } else {
                let derived = pbkdf2_sha1_32(p, network.ssid.as_str().as_bytes(), 4096);
                let digits = hex_chars(&derived);
                let text = from_chars(digits.as_slice());
                key.append(text.as_str());
            }
            key.append("\n");
        },
    }
    let ssid_hex = from_chars(hex_chars(network.ssid.as_str().as_bytes()).as_slice());
    let mut config = header_text();
    config.append("network={\n    ssid=");
    config.append(ssid_hex.as_str());
    config.append("\n");
    config.append(key.as_str());
    config.append("}\n");
    proof {
        assert(config@ =~= header() + network_block(network@, password.spec_bytes(), password@));
    }
    Ok(config)
}


// ---------------------------------------------------------------------------------------------
// Scan results.
// ---------------------------------------------------------------------------------------------

/// A supplicant escape sequence undone: `\xHH` is the byte HH, `\\` and `\"` the character
/// after the backslash; any other escape, or one cut short, is refused.
pub open spec fn unescape(s: Seq<u8>) -> Option<Seq<u8>>
    decreases s.len(),
{
    if s.len() == 0 {
        Some(seq![])
    } else if s[0] != 92 {
        match unescape(s.skip(1)) {
            Some(r) => Some(seq![s[0]] + r),
            None => None,
        }
    } else if s.len() < 2 {
        None
    } else if s[1] == 120 {
        if s.len() >= 4 && is_hex_byte(s[2]) && is_hex_byte(s[3]) {
            match unescape(s.skip(4)) {
                Some(r) => Some(seq![(hex_value(s[2]) * 16 + hex_value(s[3])) as u8] + r),
                None => None,
            }
        } else {
            None
        }
    } else if s[1] == 92 || s[1] == 34 {
        match unescape(s.skip(2)) {
            Some(r) => Some(seq![s[1]] + r),
            None => None,
        }
    } else {
        None
    }
}

/// The network name a scan field spells: unescaped, well-formed UTF-8, and free of control
/// characters.
pub open spec fn ssid_of(field: Seq<u8>) -> Option<Seq<char>> {
    match unescape(field) {
        Some(b) => if valid_utf8(b) && no_control(decode_utf8(b)) {
            Some(decode_utf8(b))
        } else {
            None
        },
        None => None,
    }
}

fn unescape_bytes(s: &[u8]) -> (r: Option<Vec<u8>>)
    ensures
        match unescape(s@) {
            Some(b) => r matches Some(v) && v@ == b,
            None => r is None,
        },
{
    let mut out: Vec<u8> = Vec::new();
    let mut i: usize = 0;
    let n = s.len();
    assert(s@.skip(0) =~= s@);
    while i < n
        invariant
            n == s@.len(),
            i <= n,
            unescape(s@) == match unescape(s@.skip(i as int)) {
                Some(r) => Some(out@ + r),
                None => None::<Seq<u8>>,
            },
        decreases n - i,
    {
        let ghost rest = s@.skip(i as int);
        let b = s[i];
        if b != 92 {
            proof {
                assert(rest.skip(1) =~= s@.skip(i + 1));
                match unescape(rest.skip(1)) {
                    Some(r) => assert(out@.push(b) + r =~= out@ + (seq![b] + r)),
                    None => {},
                }
            }
            out.push(b);
            i += 1;
        } else {
            if i + 1 >= n {
                return None;
            }
            let e = s[i + 1];
            if e == 120 {
                if n - i < 4 {
                    return None;
                }
                let hi = hex_digit(s[i + 2]);
                let lo = hex_digit(s[i + 3]);
                if hi.is_none() || lo.is_none() {
                    return None;
                }
                let v = hi.unwrap() * 16 + lo.unwrap();
                proof {
                    assert(rest.skip(4) =~= s@.skip(i + 4));
                    match unescape(rest.skip(4)) {
                        Some(r) => assert(out@.push(v) + r =~= out@ + (seq![v] + r)),
                        None => {},
                    }
                }
                out.push(v);
                i += 4;
            } else if e == 92 || e == 34 {
                proof {
                    assert(rest.skip(2) =~= s@.skip(i + 2));
                    match unescape(rest.skip(2)) {
                        Some(r) => assert(out@.push(e) + r =~= out@ + (seq![e] + r)),
                        None => {},
                    }
                }
                out.push(e);
                i += 2;
            } else {
                return None;
            }
        }
    }
    proof {
        assert(s@.skip(i as int) =~= Seq::<u8>::empty());
        assert(out@ + Seq::<u8>::empty() =~= out@);
    }
    Some(out)
}

/// A network name as the supplicant escapes it in scan results, decoded. Names that are not
/// well-formed UTF-8, or hold control characters, are refused.
pub fn decode_ssid(text: &str) -> (r: Option<String>)
    ensures
        match ssid_of(text.spec_bytes()) {
            Some(s) => r matches Some(t) && t@ == s,
            None => r is None,
        },
{
    let bytes = unescape_bytes(text.as_bytes())?;
    let s = string_from_utf8(bytes)?;
    let chars = to_chars(s.as_str());
    if chars_free_of_control(chars.as_slice()) {
        Some(s)
    } else {
        None
    }
}

/// The value of a run of decimal digits.
pub open spec fn digits_value(s: Seq<char>) -> int
    decreases s.len(),
{
    if s.len() == 0 {
        0
    } else {
        digits_value(s.drop_last()) * 10 + ((s.last() as u32) - 48)
    }
}

pub open spec fn all_digits(s: Seq<char>) -> bool {
    forall|i: int| 0 <= i < s.len() ==> '0' <= #[trigger] s[i] && s[i] <= '9'
}

/// What `str::parse::<i32>` makes of the text: an optional sign, then at least one digit,
/// within range.
pub open spec fn parse_i32(s: Seq<char>) -> Option<i32> {
    let neg = s.len() > 0 && s[0] == '-';
    let d = if s.len() > 0 && (s[0] == '-' || s[0] == '+') { s.skip(1) } else { s };
    let v = if neg { -digits_value(d) } else { digits_value(d) };
    if d.len() == 0 || !all_digits(d) || v < i32::MIN || v > i32::MAX {
        None
    } else {
        Some(v as i32)
    }
}

proof fn lemma_digits_nonneg(s: Seq<char>)
    requires
        all_digits(s),
    ensures
        digits_value(s) >= 0,
    decreases s.len(),
{
    if s.len() > 0 {
        assert(all_digits(s.drop_last()));
        lemma_digits_nonneg(s.drop_last());
        assert('0' <= s[s.len() - 1]);
    }
}

/// Decimal text as an `i32`, as `str::parse` reads it.
pub fn parse_int(s: &[char]) -> (r: Option<i32>)
    ensures
        r == parse_i32(s@),
{
    let n = s.len();
    let neg = n > 0 && s[0] == '-';
    let start: usize = if n > 0 && (s[0] == '-' || s[0] == '+') { 1 } else { 0 };
    let ghost d = s@.skip(start as int);
    assert(start == 0 ==> d =~= s@);
    if start == n {
        return None;
    }
    let mut acc: i64 = 0;
    let mut big = false;
    let mut i = start;
    while i < n
        invariant
            n == s@.len(),
            start <= i <= n,
            d == s@.skip(start as int),
            d == (if s@.len() > 0 && (s@[0] == '-' || s@[0] == '+') { s@.skip(1) } else { s@ }),
            neg == (s@.len() > 0 && s@[0] == '-'),
            forall|j: int| start <= j < i ==> '0' <= #[trigger] s@[j] && s@[j] <= '9',
            !big ==> acc == digits_value(d.take(i - start)),
            big ==> digits_value(d.take(i - start)) > 2147483648,
            0 <= acc <= 2147483648,
        decreases n - i,
    {
        let c = s[i];
        if c < '0' || c > '9' {
            proof {
                assert(d[i - start] == c);
                assert(!all_digits(d));
            }
            return None;
        }
        proof {
            let t = d.take(i - start + 1);
            assert(t.drop_last() =~= d.take(i - start));
            assert(t.last() == c);
            assert(all_digits(d.take(i - start))) by {
                assert forall|j: int| 0 <= j < i - start implies '0' <= #[trigger] d.take(i - start)[j] && d.take(i - start)[j] <= '9' by {
                    assert(d.take(i - start)[j] == s@[j + start]);
                }
            }
            lemma_digits_nonneg(d.take(i - start));
        }
        let digit = (c as u32 - 48) as i64;
        if !big {
            let next = acc * 10 + digit;
            if next > 2147483648 {
                big = true;
                acc = 0;
            } else {
                acc = next;
            }
        }
        i += 1;
    }
    proof {
        assert(d.take(n - start) =~= d);
        assert(all_digits(d)) by {
            assert forall|j: int| 0 <= j < d.len() implies '0' <= #[trigger] d[j] && d[j] <= '9' by {
                assert(d[j] == s@[j + start]);
            }
        }
    }
    if big {
        return None;
    }
    if neg {
        Some((0 - acc) as i32)
    } else if acc > 2147483647 {
        None
    } else {
        Some(acc as i32)
    }
}

/// What the flags column says of a network's security: PSK is joinable, any other scheme is
/// not, and no scheme at all is open.
pub open spec fn scan_security(flags: Seq<char>) -> Security {
    if contains_seq(flags, "PSK"@) {
        Security::Personal
    } else if contains_seq(flags, "WEP"@) || contains_seq(flags, "WPA"@) || contains_seq(flags, "RSN"@)
        || contains_seq(flags, "OWE"@) || contains_seq(flags, "EAP"@) || contains_seq(flags, "SAE"@) {
        Security::Unsupported
    } else {
        Security::Open
    }
}

fn has(flags: &[char], p: &str) -> (b: bool)
    ensures
        b == contains_seq(flags@, p@),
{
    let pc = to_chars(p);
    contains_chars(flags, pc.as_slice())
}

fn security_of(flags: &[char]) -> (s: Security)
    ensures
        s == scan_security(flags@),
{
    if has(flags, "PSK") {
        Security::Personal
    } else if has(flags, "WEP") || has(flags, "WPA") || has(flags, "RSN") || has(flags, "OWE")
        || has(flags, "EAP") || has(flags, "SAE") {
        Security::Unsupported
    } else {
        Security::Open
    }
}

/// The signal, flags and name columns of a scan row: the third, fourth, and everything after
/// the fourth tab; `None` when the row has fewer than five columns.
pub open spec fn scan_columns(line: Seq<char>) -> Option<(Seq<char>, Seq<char>, Seq<char>)> {
    match split_once(line, '\t') {
        Some((_, r0)) => match split_once(r0, '\t') {
            Some((_, r1)) => match split_once(r1, '\t') {
                Some((f2, r2)) => match split_once(r2, '\t') {
                    Some((f3, f4)) => Some((f2, f3, f4)),
                    None => None,
                },
                None => None,
            },
            None => None,
        },
        None => None,
    }
}

/// The network a scan row describes, or `None` when the row is not one: a header, a bad
/// signal, a name that does not decode, or a name that is empty or longer than 32 bytes.
pub open spec fn scan_entry(line: Seq<char>) -> Option<NetView> {
    match scan_columns(line) {
        Some((f2, f3, f4)) => match parse_i32(f2) {
            Some(signal) => match ssid_of(encode_utf8(f4)) {
                Some(ssid) => if encode_utf8(ssid).len() == 0 || encode_utf8(ssid).len() > 32 {
                    None
                } else {
                    Some((ssid, signal, scan_security(f3)))
                },
                None => None,
            },
            None => None,
        },
        None => None,
    }
}

fn read_scan_row(line: &[char]) -> (r: Option<Network>)
    ensures
        match scan_entry(line@) {
            Some(v) => r matches Some(n) && n@ == v,
            None => r is None,
        },
{
    let (_, r0) = split_once_char(line, '\t')?;
    let (_, r1) = split_once_char(r0.as_slice(), '\t')?;
    let (f2, r2) = split_once_char(r1.as_slice(), '\t')?;
    let (f3, f4) = split_once_char(r2.as_slice(), '\t')?;
    let signal = parse_int(f2.as_slice())?;
    let field = from_chars(f4.as_slice());
    let ssid = decode_ssid(field.as_str())?;
    let len = ssid.as_str().as_bytes().len();
    if len == 0 || len > 32 {
        return None;
    }
    Some(Network { ssid, signal, security: security_of(f3.as_slice()) })
}

/// The first network in `acc` with this name and security, or -1.
pub open spec fn find_net(acc: Seq<NetView>, ssid: Seq<char>, security: Security) -> int
    decreases acc.len(),
{
    if acc.len() == 0 {
        -1
    } else if acc[0].0 == ssid && acc[0].2 == security {
        0
    } else {
        let r = find_net(acc.drop_first(), ssid, security);
        if r < 0 {
            -1
        } else {
            r + 1
        }
    }
}

proof fn lemma_find_net_at(acc: Seq<NetView>, ssid: Seq<char>, security: Security, k: int)
    requires
        0 <= k <= acc.len(),
        forall|j: int| 0 <= j < k ==> !(#[trigger] acc[j].0 == ssid && acc[j].2 == security),
        k < acc.len() ==> acc[k].0 == ssid && acc[k].2 == security,
    ensures
        find_net(acc, ssid, security) == if k == acc.len() { -1 } else { k },
    decreases acc.len(),
{
    if acc.len() > 0 && !(acc[0].0 == ssid && acc[0].2 == security) {
        let t = acc.drop_first();
        assert forall|j: int| 0 <= j < k - 1 implies !(#[trigger] t[j].0 == ssid && t[j].2 == security) by {
            assert(t[j] == acc[j + 1]);
        }
        if k - 1 < t.len() {
            assert(t[k - 1] == acc[k]);
        }
        lemma_find_net_at(t, ssid, security, k - 1);
    } else if acc.len() > 0 {
        if k > 0 {
            assert(!(acc[0].0 == ssid && acc[0].2 == security));
        }
    }
}

/// A scanned network added to those already seen: a second sighting of the same name and
/// security keeps the stronger signal rather than listing it twice.
pub open spec fn merge_scan(acc: Seq<NetView>, n: NetView) -> Seq<NetView> {
    let j = find_net(acc, n.0, n.2);
    if 0 <= j < acc.len() {
        acc.update(j, (acc[j].0, if acc[j].1 >= n.1 { acc[j].1 } else { n.1 }, acc[j].2))
    } else {
        acc.push(n)
    }
}

/// Every network the rows describe, each name and security once, in order of first sighting.
pub open spec fn scan_fold(rows: Seq<Seq<char>>) -> Seq<NetView>
    decreases rows.len(),
{
    if rows.len() == 0 {
        seq![]
    } else {
        let acc = scan_fold(rows.drop_last());
        match scan_entry(rows.last()) {
            Some(n) => merge_scan(acc, n),
            None => acc,
        }
    }
}

/// Strongest signal first, then by name as `String` orders names.
pub open spec fn scan_lt(a: NetView, b: NetView) -> bool {
    a.1 > b.1 || (a.1 == b.1 && bytes_lt(encode_utf8(a.0), encode_utf8(b.0)))
}

/// The networks a scan lists: every row that describes one, deduplicated, strongest first.
pub open spec fn scan_result(text: Seq<char>) -> Seq<NetView> {
    sort_by(scan_fold(lines(text)), |a: NetView, b: NetView| scan_lt(a, b))
}

/// The view of a list of networks.
pub open spec fn nets_view(v: Seq<Network>) -> Seq<NetView> {
    v.map_values(|n: Network| n@)
}

fn find_network(acc: &Vec<Network>, ssid: &String, security: Security) -> (r: usize)
    ensures
        r <= acc@.len(),
        find_net(nets_view(acc@), ssid@, security) == if r == acc@.len() { -1 } else { r as int },
{
    let mut k: usize = 0;
    while k < acc.len()
        invariant
            k <= acc@.len(),
            forall|j: int| 0 <= j < k ==> !(#[trigger] nets_view(acc@)[j].0 == ssid@ && nets_view(acc@)[j].2 == security),
        decreases acc@.len() - k,
    {
        if acc[k].ssid == *ssid && acc[k].security == security {
            proof {
                lemma_find_net_at(nets_view(acc@), ssid@, security, k as int);
            }
            return k;
        }
        k += 1;
    }
    proof {
        lemma_find_net_at(nets_view(acc@), ssid@, security, k as int);
    }
    k
}

fn scan_less(a: &Network, b: &Network) -> (r: bool)
    ensures
        r == scan_lt(a@, b@),
{
    a.signal > b.signal || (a.signal == b.signal && bytes_less(a.ssid.as_str().as_bytes(), b.ssid.as_str().as_bytes()))
}

/// The networks a supplicant scan lists, one per name and security with the strongest
/// signal seen, strongest first and then by name.
pub fn parse_scan(text: &str) -> (networks: Vec<Network>)
    ensures
        nets_view(networks@) == scan_result(text@),
{
    let chars = to_chars(text);
    let rows = split_lines(chars.as_slice());
    let ghost ls = rows@.map_values(|v: Vec<char>| v@);
    let mut found: Vec<Network> = Vec::new();
    let mut i: usize = 0;
    while i < rows.len()
        invariant
            i <= rows@.len(),
            ls == rows@.map_values(|v: Vec<char>| v@),
            ls == lines(text@),
            nets_view(found@) == scan_fold(ls.take(i as int)),
        decreases rows@.len() - i,
    {
        proof {
            assert(ls.take(i + 1).drop_last() =~= ls.take(i as int));
            assert(ls.take(i + 1).last() == rows@[i as int]@);
        }
        match read_scan_row(rows[i].as_slice()) {
            Some(network) => {
                let k = find_network(&found, &network.ssid, network.security);
                if k < found.len() {
                    let old = copy_network(&found[k]);
                    let signal = if old.signal >= network.signal { old.signal } else { network.signal };
                    let merged = Network { ssid: old.ssid, signal, security: old.security };
                    found[k] = merged;
                    proof {
                        assert(nets_view(found@) =~= merge_scan(scan_fold(ls.take(i as int)), network@));
                    }
                } else {
                    found.push(network);
                    proof {
                        assert(nets_view(found@) =~= merge_scan(scan_fold(ls.take(i as int)), network@));
                    }
                }
            },
            None => {},
        }
        i += 1;
    }
    assert(ls.take(rows@.len() as int) =~= ls);
    let ghost unsorted = nets_view(found@);
    let ghost lt = |a: NetView, b: NetView| scan_lt(a, b);
    let mut sorted: Vec<Network> = Vec::new();
    let mut j: usize = 0;
    while j < found.len()
        invariant
            j <= found@.len(),
            unsorted == nets_view(found@),
            lt == (|a: NetView, b: NetView| scan_lt(a, b)),
            nets_view(sorted@) == sort_by(unsorted.take(j as int), lt),
        decreases found@.len() - j,
    {
        let x = copy_network(&found[j]);
        let mut p = sorted.len();
        while p > 0 && scan_less(&x, &sorted[p - 1])
            invariant
                p <= sorted@.len(),
                lt == (|a: NetView, b: NetView| scan_lt(a, b)),
                forall|q: int| p <= q < sorted@.len() ==> lt(x@, #[trigger] nets_view(sorted@)[q]),
            decreases p,
        {
            assert(nets_view(sorted@)[p - 1] == sorted@[p - 1]@);
            p -= 1;
        }
        proof {
            if p > 0 {
                assert(nets_view(sorted@)[p - 1] == sorted@[p - 1]@);
            }
        }
        let ghost before = nets_view(sorted@);
        let ghost xv = x@;
        proof {
            lemma_insert_by_at(before, xv, lt, p as int);
            assert(unsorted.take(j + 1).drop_last() =~= unsorted.take(j as int));
            assert(unsorted.take(j + 1).last() == xv);
        }
        sorted.insert(p, x);
        assert(nets_view(sorted@) =~= before.take(p as int).push(xv) + before.skip(p as int));
        assert(nets_view(sorted@) =~= sort_by(unsorted.take(j + 1), lt));
        j += 1;
    }
    assert(unsorted.take(found@.len() as int) =~= unsorted);
    sorted
}


// ---------------------------------------------------------------------------------------------
// Saved profiles.
// ---------------------------------------------------------------------------------------------

/// A saved network: its name and the block of configuration that joins it.
pub struct SavedProfile {
    pub ssid: String,
    pub block: String,
}

/// A saved network as the specifications see it: its name and its block.
pub type ProfView = (Seq<char>, Seq<char>);

impl View for SavedProfile {
    type V = ProfView;

    open spec fn view(&self) -> ProfView {
        (self.ssid@, self.block@)
    }
}

pub open spec fn profs_view(v: Seq<SavedProfile>) -> Seq<ProfView> {
    v.map_values(|p: SavedProfile| p@)
}

/// The byte one pair of hexadecimal digits stands for, as `u8::from_str_radix(_, 16)` reads
/// the pair: two digits, or a plus sign and one digit.
pub open spec fn pair_value(a: u8, b: u8) -> Option<u8> {
    if a == 43 && is_hex_byte(b) {
        Some(hex_value(b) as u8)
    } else if is_hex_byte(a) && is_hex_byte(b) {
        Some((hex_value(a) * 16 + hex_value(b)) as u8)
    } else {
        None
    }
}

/// The bytes the pairs of `b` stand for, or `None` when a pair stands for none.
pub open spec fn hex_pairs(b: Seq<u8>) -> Option<Seq<u8>>
    decreases b.len(),
{
    if b.len() < 2 {
        if b.len() == 0 {
            Some(seq![])
        } else {
            None
        }
    } else {
        match hex_pairs(b.take(b.len() - 2)) {
            Some(r) => match pair_value(b[b.len() - 2], b[b.len() - 1]) {
                Some(v) => Some(r.push(v)),
                None => None,
            },
            None => None,
        }
    }
}

/// The value after `ssid=` on the first line of a block that has one, once trimmed.
pub open spec fn ssid_field(ls: Seq<Seq<char>>) -> Option<Seq<char>>
    decreases ls.len(),
{
    if ls.len() == 0 {
        None
    } else {
        match strip_prefix(trim(ls[0]), "ssid="@) {
            Some(v) => Some(v),
            None => ssid_field(ls.drop_first()),
        }
    }
}

/// The name a saved block holds: its `ssid=` value, 2 to 64 hexadecimal digits that spell
/// well-formed UTF-8.
pub open spec fn profile_ssid(fields: Seq<char>) -> Option<Seq<char>> {
    match ssid_field(lines(fields)) {
        Some(hex) => {
            let hb = encode_utf8(hex);
            if hb.len() == 0 || hb.len() > 64 || hb.len() % 2 != 0 {
                None
            } else {
                match hex_pairs(hb) {
                    Some(b) => if valid_utf8(b) {
                        Some(decode_utf8(b))
                    } else {
                        None
                    },
                    None => None,
                }
            }
        },
        None => None,
    }
}

/// Some saved network already has this name.
pub open spec fn has_name(acc: Seq<ProfView>, ssid: Seq<char>) -> bool {
    exists|i: int| 0 <= i < acc.len() && (#[trigger] acc[i]).0 == ssid
}

/// The blocks left in `rest`, after those already read into `acc`: each must open with
/// `network={`, close with `}`, and name a network no earlier block named.
pub open spec fn profiles_from(rest: Seq<char>, acc: Seq<ProfView>) -> Option<Seq<ProfView>>
    decreases rest.len(),
{
    if rest.len() == 0 {
        Some(acc)
    } else if !has_prefix(rest, "network={\n"@) {
        None
    } else {
        proof {
            reveal_strlit("network={\n");
            reveal_strlit("}\n");
        }
        let body = rest.skip(10);
        match split_once_seq(body, "}\n"@) {
            Some((fields, next)) => match profile_ssid(fields) {
                Some(ssid) => if !no_control(ssid) || has_name(acc, ssid) {
                    None
                } else {
                    profiles_from(next, acc.push((ssid, "network={\n"@ + fields + "}\n"@)))
                },
                None => None,
            },
            None => None,
        }
    }
}

/// The saved networks a configuration holds, or `None` when it is not one this frontend
/// wrote.
pub open spec fn saved_profiles(config: Seq<char>) -> Option<Seq<ProfView>> {
    match strip_prefix(config, header()) {
        Some(rest) => profiles_from(rest, seq![]),
        None => None,
    }
}

proof fn lemma_hex_pairs_step(b: Seq<u8>, i: int)
    requires
        0 <= i,
        i + 2 <= b.len(),
        i % 2 == 0,
    ensures
        hex_pairs(b.take(i + 2)) == match hex_pairs(b.take(i)) {
            Some(r) => match pair_value(b[i], b[i + 1]) {
                Some(v) => Some(r.push(v)),
                None => None,
            },
            None => None::<Seq<u8>>,
        },
{
    let t = b.take(i + 2);
    assert(t.take(t.len() - 2) =~= b.take(i));
    assert(t[t.len() - 2] == b[i]);
    assert(t[t.len() - 1] == b[i + 1]);
}

proof fn lemma_hex_pairs_none(b: Seq<u8>, j: int)
    requires
        0 <= j <= b.len(),
        j % 2 == 0,
        b.len() % 2 == 0,
        hex_pairs(b.take(j)) is None,
    ensures
        hex_pairs(b) is None,
    decreases b.len(),
{
    if b.len() == j {
        assert(b.take(j) =~= b);
    } else {
        let t = b.take(b.len() - 2);
        assert(t.take(j) =~= b.take(j));
        lemma_hex_pairs_none(t, j);
    }
}

fn decode_hex_pairs(b: &[u8]) -> (r: Option<Vec<u8>>)
    requires
        b@.len() % 2 == 0,
    ensures
        match hex_pairs(b@) {
            Some(v) => r matches Some(o) && o@ == v,
            None => r is None,
        },
{
    let mut out: Vec<u8> = Vec::new();
    let mut i: usize = 0;
    let n = b.len();
    assert(b@.take(0) =~= Seq::<u8>::empty());
    while i < n
        invariant
            n == b@.len(),
            n % 2 == 0,
            i % 2 == 0,
            i <= n,
            hex_pairs(b@.take(i as int)) == Some(out@),
        decreases n - i,
    {
        proof {
            lemma_hex_pairs_step(b@, i as int);
        }
        let a = b[i];
        let c = b[i + 1];
        let v = if a == 43 {
            match hex_digit(c) {
                Some(d) => d,
                None => {
                    proof {
                        lemma_hex_pairs_none(b@, i + 2);
                    }
                    return None;
                },
            }
        } else {
            match (hex_digit(a), hex_digit(c)) {
                (Some(h), Some(l)) => h * 16 + l,
                _ => {
                    proof {
                        lemma_hex_pairs_none(b@, i + 2);
                    }
                    return None;
                },
            }
        };
        out.push(v);
        i += 2;
    }
    assert(b@.take(n as int) =~= b@);
    Some(out)
}

fn find_ssid_field(ls: &Vec<Vec<char>>) -> (r: Option<Vec<char>>)
    ensures
        match ssid_field(ls@.map_values(|v: Vec<char>| v@)) {
            Some(h) => r matches Some(v) && v@ == h,
            None => r is None,
        },
{
    let ghost all = ls@.map_values(|v: Vec<char>| v@);
    let mut i: usize = 0;
    assert(all.skip(0) =~= all);
    while i < ls.len()
        invariant
            i <= ls@.len(),
            all == ls@.map_values(|v: Vec<char>| v@),
            ssid_field(all) == ssid_field(all.skip(i as int)),
        decreases ls@.len() - i,
    {
        let t = trim_chars(ls[i].as_slice());
        proof {
            assert(all.skip(i as int)[0] == ls@[i as int]@);
            assert(all.skip(i as int).drop_first() =~= all.skip(i + 1));
        }
        match strip_prefix_chars(t.as_slice(), "ssid=") {
            Some(v) => {
                return Some(v);
            },
            None => {},
        }
        i += 1;
    }
    None
}

fn read_profile_ssid(fields: &[char]) -> (r: Option<String>)
    ensures
        match profile_ssid(fields@) {
            Some(s) => r matches Some(t) && t@ == s,
            None => r is None,
        },
{
    let ls = split_lines(fields);
    let hex = find_ssid_field(&ls)?;
    let text = from_chars(hex.as_slice());
    let hb = text.as_str().as_bytes();
    if hb.len() == 0 || hb.len() > 64 || hb.len() % 2 != 0 {
        return None;
    }
    let bytes = decode_hex_pairs(hb)?;
    string_from_utf8(bytes)
}

fn has_saved_name(acc: &Vec<SavedProfile>, ssid: &String) -> (r: bool)
    ensures
        r == has_name(profs_view(acc@), ssid@),
{
    let mut i: usize = 0;
    while i < acc.len()
        invariant
            i <= acc@.len(),
            forall|j: int| 0 <= j < i ==> (#[trigger] profs_view(acc@)[j]).0 != ssid@,
        decreases acc@.len() - i,
    {
        if acc[i].ssid == *ssid {
            assert(profs_view(acc@)[i as int].0 == ssid@);
            return true;
        }
        i += 1;
    }
    false
}

fn cannot_read() -> (s: String)
    ensures
        s@ == "Cannot read saved networks"@,
{
    owned("Cannot read saved networks")
}

/// The saved networks in a configuration file, in file order. Anything other than the
/// header followed by well-formed blocks, each naming a different network, is refused.
pub fn parse_profiles(config: &str) -> (r: Result<Vec<SavedProfile>, String>)
    ensures
        match saved_profiles(config@) {
            Some(ps) => r matches Ok(v) && profs_view(v@) == ps,
            None => r matches Err(e) && e@ == "Cannot read saved networks"@,
        },
{
    let chars = to_chars(config);
    let mut rest = match strip_prefix_chars(chars.as_slice(), "ctrl_interface=/run/slot-wifi\nupdate_config=0\n") {
        Some(r) => r,
        None => return Err(cannot_read()),
    };
    let mut profiles: Vec<SavedProfile> = Vec::new();
    let ghost first = rest@;
    assert(profs_view(profiles@) =~= Seq::<ProfView>::empty());
    let open = to_chars("network={\n");
    let close = to_chars("}\n");
    while rest.len() > 0
        invariant
            saved_profiles(config@) == profiles_from(first, seq![]),
            profiles_from(first, seq![]) == profiles_from(rest@, profs_view(profiles@)),
            open@ == "network={\n"@,
            close@ == "}\n"@,
        decreases rest@.len(),
    {
        if !starts_with_chars(rest.as_slice(), open.as_slice()) {
            return Err(cannot_read());
        }
        proof {
            assert(open@.len() == 10) by {
                reveal_strlit("network={\n");
            }
        }
        let body = copy_range(rest.as_slice(), 10, rest.len());
        assert(body@ =~= rest@.skip(10));
        let at = match find_chars(body.as_slice(), close.as_slice()) {
            Some(at) => at,
            None => return Err(cannot_read()),
        };
        proof {
            assert(close@.len() == 2) by {
                reveal_strlit("}\n");
            }
        }
        let fields = copy_range(body.as_slice(), 0, at);
        let next = copy_range(body.as_slice(), at + 2, body.len());
        assert(fields@ =~= body@.take(at as int));
        assert(next@ =~= body@.skip(at + 2));
        let ssid = match read_profile_ssid(fields.as_slice()) {
            Some(s) => s,
            None => return Err(cannot_read()),
        };
        let ssid_chars = to_chars(ssid.as_str());
        if !chars_free_of_control(ssid_chars.as_slice()) || has_saved_name(&profiles, &ssid) {
            return Err(cannot_read());
        }
        let mut block = String::new();
        block.append("network={\n");
        let fields_text = from_chars(fields.as_slice());
        block.append(fields_text.as_str());
        block.append("}\n");
        let ghost before = profs_view(profiles@);
        profiles.push(SavedProfile { ssid, block });
        assert(profs_view(profiles@) =~= before.push((ssid_chars@, "network={\n"@ + fields@ + "}\n"@)));
        rest = next;
    }
    Ok(profiles)
}

/// The blocks, one after another.
pub open spec fn blocks(ps: Seq<ProfView>) -> Seq<char>
    decreases ps.len(),
{
    if ps.len() == 0 {
        seq![]
    } else {
        blocks(ps.drop_last()) + ps.last().1
    }
}

/// The configuration file that saves these networks: the header and each block in turn.
pub fn render_profiles(profiles: &Vec<SavedProfile>) -> (config: String)
    ensures
        config@ == header() + blocks(profs_view(profiles@)),
{
    let mut config = header_text();
    let ghost ps = profs_view(profiles@);
    let mut i: usize = 0;
    while i < profiles.len()
        invariant
            i <= profiles@.len(),
            ps == profs_view(profiles@),
            config@ == header() + blocks(ps.take(i as int)),
        decreases profiles@.len() - i,
    {
        proof {
            assert(ps.take(i + 1).drop_last() =~= ps.take(i as int));
            assert(ps.take(i + 1).last() == profiles@[i as int]@);
        }
        config.append(profiles[i].block.as_str());
        assert(config@ =~= header() + blocks(ps.take(i + 1)));
        i += 1;
    }
    assert(ps.take(profiles@.len() as int) =~= ps);
    config
}

/// `ps` without the network named `ssid`.
pub open spec fn without(ps: Seq<ProfView>, ssid: Seq<char>) -> Seq<ProfView>
    decreases ps.len(),
{
    if ps.len() == 0 {
        seq![]
    } else if ps.last().0 == ssid {
        without(ps.drop_last(), ssid)
    } else {
        without(ps.drop_last(), ssid).push(ps.last())
    }
}

fn copy_profile(p: &SavedProfile) -> (c: SavedProfile)
    ensures
        c@ == p@,
{
    SavedProfile { ssid: p.ssid.clone(), block: p.block.clone() }
}

fn retain_others(profiles: &Vec<SavedProfile>, ssid: &String) -> (kept: Vec<SavedProfile>)
    ensures
        profs_view(kept@) == without(profs_view(profiles@), ssid@),
{
    let ghost ps = profs_view(profiles@);
    let mut kept: Vec<SavedProfile> = Vec::new();
    let mut i: usize = 0;
    while i < profiles.len()
        invariant
            i <= profiles@.len(),
            ps == profs_view(profiles@),
            profs_view(kept@) == without(ps.take(i as int), ssid@),
        decreases profiles@.len() - i,
    {
        proof {
            assert(ps.take(i + 1).drop_last() =~= ps.take(i as int));
            assert(ps.take(i + 1).last() == profiles@[i as int]@);
        }
        if profiles[i].ssid != *ssid {
            let c = copy_profile(&profiles[i]);
            kept.push(c);
        }
        assert(profs_view(kept@) =~= without(ps.take(i + 1), ssid@));
        i += 1;
    }
    assert(ps.take(profiles@.len() as int) =~= ps);
    kept
}

/// `s` in lowercase, as `str::to_lowercase` maps it.
pub uninterp spec fn lowercase(s: Seq<char>) -> Seq<char>;

/// `str::to_lowercase`: the contract claims only that the result is the lowercase mapping of
/// the argument's characters.
#[verifier::external_body]
fn to_lowercase(s: &str) -> (r: String)
    ensures
        r@ == lowercase(s@),
{
    s.to_lowercase()
}

/// Saved names in the order the list shows them: ignoring case first, then exactly.
pub open spec fn name_lt(a: Seq<char>, b: Seq<char>) -> bool {
    bytes_lt(encode_utf8(lowercase(a)), encode_utf8(lowercase(b))) || (encode_utf8(lowercase(a))
        == encode_utf8(lowercase(b)) && bytes_lt(encode_utf8(a), encode_utf8(b)))
}

fn name_less(a: &String, b: &String) -> (r: bool)
    ensures
        r == name_lt(a@, b@),
{
    let la = to_lowercase(a.as_str());
    let lb = to_lowercase(b.as_str());
    let x = la.as_str().as_bytes();
    let y = lb.as_str().as_bytes();
    bytes_less(x, y) || (bytes_equal(x, y) && bytes_less(a.as_str().as_bytes(), b.as_str().as_bytes()))
}

/// The names of the saved networks.
pub open spec fn names_of(ps: Seq<ProfView>) -> Seq<Seq<char>> {
    ps.map_values(|p: ProfView| p.0)
}

pub open spec fn strings_view(v: Seq<String>) -> Seq<Seq<char>> {
    v.map_values(|s: String| s@)
}

/// The saved networks' names, alphabetical without regard to case.
pub fn sorted_names(profiles: &[SavedProfile]) -> (names: Vec<String>)
    ensures
        strings_view(names@) == sort_by(
            names_of(profiles@.map_values(|p: SavedProfile| p@)),
            |a: Seq<char>, b: Seq<char>| name_lt(a, b),
        ),
{
    let ghost all = names_of(profiles@.map_values(|p: SavedProfile| p@));
    let ghost lt = |a: Seq<char>, b: Seq<char>| name_lt(a, b);
    let mut sorted: Vec<String> = Vec::new();
    let mut j: usize = 0;
    while j < profiles.len()
        invariant
            j <= profiles@.len(),
            all == names_of(profiles@.map_values(|p: SavedProfile| p@)),
            lt == (|a: Seq<char>, b: Seq<char>| name_lt(a, b)),
            strings_view(sorted@) == sort_by(all.take(j as int), lt),
        decreases profiles@.len() - j,
    {
        let x = profiles[j].ssid.clone();
        let mut p = sorted.len();
        while p > 0 && name_less(&x, &sorted[p - 1])
            invariant
                p <= sorted@.len(),
                lt == (|a: Seq<char>, b: Seq<char>| name_lt(a, b)),
                forall|q: int| p <= q < sorted@.len() ==> lt(x@, #[trigger] strings_view(sorted@)[q]),
            decreases p,
        {
            assert(strings_view(sorted@)[p - 1] == sorted@[p - 1]@);
            p -= 1;
        }
        proof {
            if p > 0 {
                assert(strings_view(sorted@)[p - 1] == sorted@[p - 1]@);
            }
        }
        let ghost before = strings_view(sorted@);
        let ghost xv = x@;
        proof {
            lemma_insert_by_at(before, xv, lt, p as int);
            assert(all.take(j + 1).drop_last() =~= all.take(j as int));
            assert(all.take(j + 1).last() == xv);
        }
        sorted.insert(p, x);
        assert(strings_view(sorted@) =~= before.take(p as int).push(xv) + before.skip(p as int));
        j += 1;
    }
    assert(all.take(profiles@.len() as int) =~= all);
    sorted
}

/// The configuration that saves `network` beside the others: any earlier profile for the
/// same name is replaced by the new block, which goes last.
pub fn add_profile(profiles: &Vec<SavedProfile>, network: &Network, profile: &str) -> (config: String)
    requires
        has_prefix(profile@, header()),
    ensures
        config@ == header() + blocks(
            without(profs_view(profiles@), network.ssid@).push(
                (network.ssid@, profile@.skip(header().len() as int)),
            ),
        ),
{
    let mut kept = retain_others(profiles, &network.ssid);
    let chars = to_chars(profile);
    let block = match strip_prefix_chars(chars.as_slice(), "ctrl_interface=/run/slot-wifi\nupdate_config=0\n") {
        Some(b) => b,
        None => {
            assert(false);
            Vec::new()
        },
    };
    let ghost before = profs_view(kept@);
    kept.push(SavedProfile { ssid: network.ssid.clone(), block: from_chars(block.as_slice()) });
    assert(profs_view(kept@) =~= before.push((network.ssid@, profile@.skip(header().len() as int))));
    render_profiles(&kept)
}

/// The profiles without the one named `ssid`, or the error shown when there was none.
pub fn forget_profile(profiles: &Vec<SavedProfile>, ssid: &String) -> (r: Result<Vec<SavedProfile>, String>)
    ensures
        without(profs_view(profiles@), ssid@).len() == profiles@.len() ==> (r matches Err(e) && e@
            == "Saved network not found"@),
        without(profs_view(profiles@), ssid@).len() != profiles@.len() ==> (r matches Ok(v) && profs_view(v@)
            == without(profs_view(profiles@), ssid@)),
{
    let kept = retain_others(profiles, ssid);
    if kept.len() == profiles.len() {
        return Err(owned("Saved network not found"));
    }
    Ok(kept)
}

/// Where the first saved network named `ssid` is, or -1.
pub open spec fn prof_index(ps: Seq<ProfView>, ssid: Seq<char>) -> int
    decreases ps.len(),
{
    if ps.len() == 0 {
        -1
    } else if ps[0].0 == ssid {
        0
    } else {
        let r = prof_index(ps.drop_first(), ssid);
        if r < 0 {
            -1
        } else {
            r + 1
        }
    }
}

proof fn lemma_prof_index_at(ps: Seq<ProfView>, ssid: Seq<char>, k: int)
    requires
        0 <= k <= ps.len(),
        forall|j: int| 0 <= j < k ==> (#[trigger] ps[j]).0 != ssid,
        k < ps.len() ==> ps[k].0 == ssid,
    ensures
        prof_index(ps, ssid) == if k == ps.len() { -1 } else { k },
    decreases ps.len(),
{
    if ps.len() > 0 && ps[0].0 != ssid {
        let t = ps.drop_first();
        assert forall|j: int| 0 <= j < k - 1 implies (#[trigger] t[j]).0 != ssid by {
            assert(t[j] == ps[j + 1]);
        }
        if k - 1 < t.len() {
            assert(t[k - 1] == ps[k]);
        }
        lemma_prof_index_at(t, ssid, k - 1);
    } else if ps.len() > 0 && k > 0 {
        assert(ps[0].0 != ssid);
    }
}

/// The configuration that joins the saved network named `ssid`: the header and its block.
pub fn saved_config(profiles: &Vec<SavedProfile>, ssid: &String) -> (r: Result<String, String>)
    ensures
        ({
            let i = prof_index(profs_view(profiles@), ssid@);
            if 0 <= i < profiles@.len() {
                r matches Ok(c) && c@ == header() + profs_view(profiles@)[i].1
            } else {
                r matches Err(e) && e@ == "Saved network not found"@
            }
        }),
{
    let mut k: usize = 0;
    while k < profiles.len()
        invariant
            k <= profiles@.len(),
            forall|j: int| 0 <= j < k ==> (#[trigger] profs_view(profiles@)[j]).0 != ssid@,
        decreases profiles@.len() - k,
    {
        if profiles[k].ssid == *ssid {
            proof {
                lemma_prof_index_at(profs_view(profiles@), ssid@, k as int);
            }
            let mut c = header_text();
            c.append(profiles[k].block.as_str());
            return Ok(c);
        }
        assert(profs_view(profiles@)[k as int].0 == profiles@[k as int].ssid@);
        k += 1;
    }
    proof {
        lemma_prof_index_at(profs_view(profiles@), ssid@, k as int);
    }
    Err(owned("Saved network not found"))
}

// ---------------------------------------------------------------------------------------------
// What the supplicant's replies say.
// ---------------------------------------------------------------------------------------------

/// What follows `key` on the first line that starts with it.
pub open spec fn first_value(ls: Seq<Seq<char>>, key: Seq<char>) -> Option<Seq<char>>
    decreases ls.len(),
{
    if ls.len() == 0 {
        None
    } else {
        match strip_prefix(ls[0], key) {
            Some(v) => Some(v),
            None => first_value(ls.drop_first(), key),
        }
    }
}

/// Some line is exactly `line`.
pub open spec fn has_line(ls: Seq<Seq<char>>, line: Seq<char>) -> bool {
    exists|i: int| 0 <= i < ls.len() && #[trigger] ls[i] == line
}

fn find_value(ls: &Vec<Vec<char>>, key: &str) -> (r: Option<Vec<char>>)
    ensures
        match first_value(ls@.map_values(|v: Vec<char>| v@), key@) {
            Some(h) => r matches Some(v) && v@ == h,
            None => r is None,
        },
{
    let ghost all = ls@.map_values(|v: Vec<char>| v@);
    let mut i: usize = 0;
    assert(all.skip(0) =~= all);
    while i < ls.len()
        invariant
            i <= ls@.len(),
            all == ls@.map_values(|v: Vec<char>| v@),
            first_value(all, key@) == first_value(all.skip(i as int), key@),
        decreases ls@.len() - i,
    {
        proof {
            assert(all.skip(i as int)[0] == ls@[i as int]@);
            assert(all.skip(i as int).drop_first() =~= all.skip(i + 1));
        }
        match strip_prefix_chars(ls[i].as_slice(), key) {
            Some(v) => {
                return Some(v);
            },
            None => {},
        }
        i += 1;
    }
    None
}

fn any_line(ls: &Vec<Vec<char>>, line: &str) -> (r: bool)
    ensures
        r == has_line(ls@.map_values(|v: Vec<char>| v@), line@),
{
    let ghost all = ls@.map_values(|v: Vec<char>| v@);
    let mut i: usize = 0;
    while i < ls.len()
        invariant
            i <= ls@.len(),
            all == ls@.map_values(|v: Vec<char>| v@),
            forall|j: int| 0 <= j < i ==> #[trigger] all[j] != line@,
        decreases ls@.len() - i,
    {
        if chars_are(ls[i].as_slice(), line) {
            assert(all[i as int] == line@);
            return true;
        }
        i += 1;
    }
    false
}

/// The status line a `wpa_cli status` reply gives: not connected unless the state is
/// COMPLETED, and then the address if there is one yet.
pub open spec fn status_line(reply: Seq<char>) -> Seq<char> {
    let ls = lines(reply);
    if first_value(ls, "wpa_state="@) != Some("COMPLETED"@) {
        "Not connected"@
    } else {
        match first_value(ls, "ip_address="@) {
            Some(ip) => "Connected | IP "@ + ip,
            None => "Connected; no IP address yet"@,
        }
    }
}

/// The line the screen shows for a `wpa_cli status` reply.
pub fn status_text(reply: &str) -> (s: String)
    ensures
        s@ == status_line(reply@),
{
    let chars = to_chars(reply);
    let ls = split_lines(chars.as_slice());
    let complete = match find_value(&ls, "wpa_state=") {
        Some(v) => chars_are(v.as_slice(), "COMPLETED"),
        None => false,
    };
    if !complete {
        return owned("Not connected");
    }
    match find_value(&ls, "ip_address=") {
        Some(ip) => {
            let mut s = owned("Connected | IP ");
            let ip_text = from_chars(ip.as_slice());
            s.append(ip_text.as_str());
            s
        },
        None => owned("Connected; no IP address yet"),
    }
}

/// The network a `wpa_cli status` reply says is joined: only once the state is COMPLETED.
pub open spec fn joined_ssid(reply: Seq<char>) -> Option<Seq<char>> {
    let ls = lines(reply);
    if !has_line(ls, "wpa_state=COMPLETED"@) {
        None
    } else {
        first_value(ls, "ssid="@)
    }
}

/// The joined network's name in a `wpa_cli status` reply.
pub fn connected_ssid(reply: &str) -> (r: Option<String>)
    ensures
        match joined_ssid(reply@) {
            Some(s) => r matches Some(t) && t@ == s,
            None => r is None,
        },
{
    let chars = to_chars(reply);
    let ls = split_lines(chars.as_slice());
    if !any_line(&ls, "wpa_state=COMPLETED") {
        return None;
    }
    match find_value(&ls, "ssid=") {
        Some(v) => Some(from_chars(v.as_slice())),
        None => None,
    }
}

/// Whether a `wpa_cli status` reply says the association is complete.
pub fn completed(reply: &str) -> (b: bool)
    ensures
        b == has_line(lines(reply@), "wpa_state=COMPLETED"@),
{
    let chars = to_chars(reply);
    let ls = split_lines(chars.as_slice());
    any_line(&ls, "wpa_state=COMPLETED")
}

/// Whether a `wpa_cli` reply accepted the request: some line is exactly OK.
pub fn accepted(reply: &str) -> (b: bool)
    ensures
        b == has_line(lines(reply@), "OK"@),
{
    let chars = to_chars(reply);
    let ls = split_lines(chars.as_slice());
    any_line(&ls, "OK")
}

/// Whether a `wpa_cli ping` reply is the supplicant answering.
pub fn pong(reply: &str) -> (b: bool)
    ensures
        b == (trim(reply@) == "PONG"@),
{
    let chars = to_chars(reply);
    let t = trim_chars(chars.as_slice());
    chars_are(t.as_slice(), "PONG")
}

// ---------------------------------------------------------------------------------------------
// The worker's requests, its replies, and the channel between them.
// ---------------------------------------------------------------------------------------------

/// What the worker found: scan results when it scanned, the saved names, the joined network,
/// the line to show and whether Wi-Fi is on.
pub struct Snapshot {
    pub networks: Option<Vec<Network>>,
    pub saved: Vec<String>,
    pub connected: Option<String>,
    pub status: String,
    pub enabled: bool,
}

/// A snapshot as the specifications see it: scan results, saved names, joined network, status
/// line, and whether Wi-Fi is on.
pub type SnapView = (Option<Seq<NetView>>, Seq<Seq<char>>, Option<Seq<char>>, Seq<char>, bool);

impl View for Snapshot {
    type V = SnapView;

    open spec fn view(&self) -> SnapView {
        (
            match self.networks {
                Some(n) => Some(nets_view(n@)),
                None => None,
            },
            strings_view(self.saved@),
            match self.connected {
                Some(c) => Some(c@),
                None => None,
            },
            self.status@,
            self.enabled,
        )
    }
}

/// Work for the worker. Not `Debug`: `Connect` carries a password.
pub enum Request {
    Status,
    Enable,
    Scan,
    Connect(Network, String),
    Reconnect,
    ConnectSaved(String),
    Disconnect,
    Disable,
    ForgetSaved(String),
}

/// A request as the specifications see it.
pub enum RequestView {
    Status,
    Enable,
    Scan,
    Connect(NetView, Seq<char>),
    Reconnect,
    ConnectSaved(Seq<char>),
    Disconnect,
    Disable,
    ForgetSaved(Seq<char>),
}

impl View for Request {
    type V = RequestView;

    open spec fn view(&self) -> RequestView {
        match self {
            Request::Status => RequestView::Status,
            Request::Enable => RequestView::Enable,
            Request::Scan => RequestView::Scan,
            Request::Connect(n, p) => RequestView::Connect(n@, p@),
            Request::Reconnect => RequestView::Reconnect,
            Request::ConnectSaved(s) => RequestView::ConnectSaved(s@),
            Request::Disconnect => RequestView::Disconnect,
            Request::Disable => RequestView::Disable,
            Request::ForgetSaved(s) => RequestView::ForgetSaved(s@),
        }
    }
}

/// The requests that need the radio, which are refused while Wi-Fi is off.
pub open spec fn needs_radio(r: &Request) -> bool {
    match r {
        Request::Scan | Request::Connect(_, _) | Request::Reconnect | Request::ConnectSaved(_)
        | Request::Disconnect => true,
        _ => false,
    }
}

/// The refusal the worker answers with when a request needs the radio and Wi-Fi is off.
pub fn refusal(enabled: bool, request: &Request) -> (r: Option<String>)
    ensures
        r is Some <==> !enabled && needs_radio(request),
        r matches Some(m) ==> m@ == "Turn Wi-Fi on first"@,
{
    if enabled {
        return None;
    }
    match request {
        Request::Scan | Request::Connect(_, _) | Request::Reconnect | Request::ConnectSaved(_)
        | Request::Disconnect => Some(owned("Turn Wi-Fi on first")),
        _ => None,
    }
}

/// The refusal a Reconnect meets when no network is saved.
pub fn reconnect_refusal(saved: usize) -> (r: Option<String>)
    ensures
        r is Some <==> saved == 0,
        r matches Some(m) ==> m@ == "No saved networks; select one below"@,
{
    if saved == 0 {
        Some(owned("No saved networks; select one below"))
    } else {
        None
    }
}

/// The refusal turning Wi-Fi off meets while another Wi-Fi service (a multiplayer link) owns
/// the radio: this frontend only changes the radio when it is its own.
pub fn disable_refusal(other_active: bool) -> (r: Option<String>)
    ensures
        r is Some <==> other_active,
        r matches Some(m) ==> m@ == "Another Wi-Fi service is active; end multiplayer first"@,
{
    if other_active {
        Some(owned("Another Wi-Fi service is active; end multiplayer first"))
    } else {
        None
    }
}

/// What joining a network writes: the runtime configuration that joins it (`profile`), and
/// the saved-networks file with its block replacing any earlier one of the same name, last;
/// or why the network and password are refused.
pub fn join_configs(profiles: &Vec<SavedProfile>, network: &Network, password: &str) -> (r: Result<
    (String, String),
    String,
>)
    ensures
        match validation_error(network@, password.spec_bytes()) {
            Some(e) => r matches Err(m) && m@ == e,
            None => r matches Ok((written, saved)) && {
                let block = network_block(network@, password.spec_bytes(), password@);
                &&& written@ == header() + block
                &&& saved@ == header() + blocks(without(profs_view(profiles@), network.ssid@).push((network.ssid@, block)))
            },
        },
{
    let written = profile(network, password)?;
    let ghost block = network_block(network@, password.spec_bytes(), password@);
    assert(written@.take(header().len() as int) =~= header());
    assert(written@.skip(header().len() as int) =~= block);
    let saved = add_profile(profiles, network, written.as_str());
    Ok((written, saved))
}

/// The line a Status request shows without asking the supplicant, or `None` when the
/// supplicant answers and its status is what to show.
pub fn idle_status(enabled: bool, answering: bool) -> (r: Option<String>)
    ensures
        !enabled ==> (r matches Some(m) && m@ == "Wi-Fi off"@),
        enabled && answering ==> r is None,
        enabled && !answering ==> (r matches Some(m) && m@ == "Press X to scan networks"@),
{
    if !enabled {
        Some(owned("Wi-Fi off"))
    } else if answering {
        None
    } else {
        Some(owned("Press X to scan networks"))
    }
}

/// What forgetting a saved network does to the live connection.
#[derive(Clone, Copy, Debug, PartialEq, Eq, Structural)]
pub enum ForgetStep {
    /// Wi-Fi is off or the supplicant is not ours: nothing to change.
    Nothing,
    /// No saved network is left, or none is joined: drop the runtime network.
    Clear,
    /// The forgotten network is the joined one: join from what is left.
    Rejoin,
    /// Another network is joined: reload what is left and keep it if it stays joined.
    Reload,
}

/// What to do to the live connection after forgetting `forgotten`.
pub fn forget_step(answering: bool, none_left: bool, active: &Option<String>, forgotten: &String) -> (s: ForgetStep)
    ensures
        !answering ==> s == ForgetStep::Nothing,
        answering && (none_left || active is None) ==> s == ForgetStep::Clear,
        answering && !none_left && (active matches Some(a) && a@ == forgotten@) ==> s == ForgetStep::Rejoin,
        answering && !none_left && (active matches Some(a) && a@ != forgotten@) ==> s == ForgetStep::Reload,
{
    if !answering {
        return ForgetStep::Nothing;
    }
    match active {
        None => ForgetStep::Clear,
        Some(a) => if none_left {
            ForgetStep::Clear
        } else if *a == *forgotten {
            ForgetStep::Rejoin
        } else {
            ForgetStep::Reload
        },
    }
}

/// "Forgot" and the name, the line a forget answers with when the connection is untouched.
pub fn forgot(ssid: &String) -> (m: String)
    ensures
        m@ == "Forgot "@ + ssid@,
{
    let mut m = owned("Forgot ");
    m.append(ssid.as_str());
    m
}

/// The line a forget answers with once the runtime network was dropped.
pub fn forgot_not_connected(ssid: &String) -> (m: String)
    ensures
        m@ == "Forgot "@ + ssid@ + "; not connected"@,
{
    let mut m = forgot(ssid);
    m.append("; not connected");
    m
}

/// The line a forget answers with when rejoining from what is left failed.
pub fn forgot_select_another(ssid: &String) -> (m: String)
    ensures
        m@ == "Forgot "@ + ssid@ + "; select another network to connect"@,
{
    let mut m = forgot(ssid);
    m.append("; select another network to connect");
    m
}

/// The bytes of `network=`, which open every network block.
pub open spec fn network_key_bytes() -> Seq<u8> {
    seq![110u8, 101u8, 116u8, 119u8, 111u8, 114u8, 107u8, 61u8]
}

/// After a join fails: the network the runtime file held before is joined again only when
/// one was joined before the attempt (the status then began with `Connected`) and that file
/// names a network. Otherwise the earlier file is put back and the radio disconnected. Either
/// way a failed join never replaces a working connection or its credentials.
pub open spec fn rejoins_previous(status: Seq<char>, previous: Seq<u8>) -> bool {
    has_prefix(status, "Connected"@) && contains_seq(previous, network_key_bytes())
}

/// Whether a failed join goes back to the earlier network; see `rejoins_previous`.
pub fn rejoin_previous(status: &str, previous: &[u8]) -> (b: bool)
    ensures
        b == rejoins_previous(status@, previous@),
{
    let chars = to_chars(status);
    let pre = to_chars("Connected");
    if !starts_with_chars(chars.as_slice(), pre.as_slice()) {
        return false;
    }
    let pat: [u8; 8] = [110, 101, 116, 119, 111, 114, 107, 61];
    assert(pat@ =~= network_key_bytes());
    let mut k: usize = 0;
    while k <= previous.len() && previous.len() - k >= 8
        invariant
            k <= previous.len(),
            has_prefix(status@, "Connected"@),
            pat@ == network_key_bytes(),
            forall|j: int| 0 <= j < k ==> !occurs_at(previous@, network_key_bytes(), j),
        decreases previous@.len() - k,
    {
        let mut i: usize = 0;
        let mut same = true;
        while i < 8
            invariant
                i <= 8,
                k + 8 <= previous.len(),
                pat@ == network_key_bytes(),
                same == forall|t: int| 0 <= t < i ==> previous@[k + t] == network_key_bytes()[t],
            decreases 8 - i,
        {
            if previous[k + i] != pat[i] {
                same = false;
            }
            i += 1;
        }
        if same {
            assert(previous@.subrange(k as int, k + 8) =~= network_key_bytes());
            assert(occurs_at(previous@, network_key_bytes(), k as int));
            return true;
        }
        assert(!occurs_at(previous@, network_key_bytes(), k as int)) by {
            let t = choose|t: int| 0 <= t < 8 && previous@[k + t] != network_key_bytes()[t];
            if occurs_at(previous@, network_key_bytes(), k as int) {
                assert(previous@.subrange(k as int, k + 8)[t] == previous@[k + t]);
            }
        }
        k += 1;
    }
    assert forall|j: int| !occurs_at(previous@, network_key_bytes(), j) by {
        if k <= j {
            assert(previous@.len() < k + 8);
        }
    }
    false
}

/// The snapshot a refused or failed request leaves: only the line to show and whether Wi-Fi
/// is on.
pub fn failure_snapshot(status: String, enabled: bool) -> (s: Snapshot)
    ensures
        s.networks is None,
        s.saved@.len() == 0,
        s.connected is None,
        s.status@ == status@,
        s.enabled == enabled,
{
    Snapshot { networks: None, saved: Vec::new(), connected: None, status, enabled }
}

#[verifier::external_type_specification]
#[verifier::external_body]
#[verifier::reject_recursive_types(T)]
pub struct ExSender<T>(std::sync::mpsc::Sender<T>);

#[verifier::external_type_specification]
#[verifier::external_body]
#[verifier::reject_recursive_types(T)]
pub struct ExReceiver<T>(std::sync::mpsc::Receiver<T>);

/// `Sender::send`: whether the value was handed to the other end, which is false once that
/// end is gone. Nothing more is claimed: that depends on another thread.
#[verifier::external_body]
pub(crate) fn channel_send<T>(tx: &std::sync::mpsc::Sender<T>, value: T) -> bool {
    tx.send(value).is_ok()
}

/// What `Receiver::try_recv` found.
pub enum Polled<T> {
    Ready(T),
    Empty,
    Closed,
}

/// `Receiver::try_recv`: a value if one is waiting, otherwise whether the sender is still
/// there. Nothing more is claimed: that depends on another thread.
#[verifier::external_body]
pub(crate) fn channel_try_recv<T>(rx: &std::sync::mpsc::Receiver<T>) -> Polled<T> {
    match rx.try_recv() {
        Ok(v) => Polled::Ready(v),
        Err(std::sync::mpsc::TryRecvError::Empty) => Polled::Empty,
        Err(std::sync::mpsc::TryRecvError::Disconnected) => Polled::Closed,
    }
}

/// The menu's end of the worker: requests go out, snapshots come back.
pub struct Service {
    tx: std::sync::mpsc::Sender<Request>,
    rx: std::sync::mpsc::Receiver<Snapshot>,
}

impl Service {
    /// The channel that requests go out on.
    pub closed spec fn requests(&self) -> std::sync::mpsc::Sender<Request> {
        self.tx
    }

    /// The channel that snapshots come back on.
    pub closed spec fn snapshots(&self) -> std::sync::mpsc::Receiver<Snapshot> {
        self.rx
    }

    /// A service over a worker's two channels.
    pub fn from_channels(
        tx: std::sync::mpsc::Sender<Request>,
        rx: std::sync::mpsc::Receiver<Snapshot>,
    ) -> (s: Service)
        ensures
            s.requests() == tx,
            s.snapshots() == rx,
    {
        Service { tx, rx }
    }

    /// Hands the request to the worker on `requests()`; false when the worker has stopped.
    /// Whether it has stopped is up to the worker's thread, so no clause says which.
    pub fn send(&self, request: Request) -> bool {
        channel_send(&self.tx, request)
    }

    /// The worker's next snapshot on `snapshots()`, if one is waiting. Whether one is waiting
    /// is up to the worker's thread, so no clause says which.
    pub fn poll(&self) -> Option<Snapshot> {
        match channel_try_recv(&self.rx) {
            Polled::Ready(s) => Some(s),
            _ => None,
        }
    }
}

// ---------------------------------------------------------------------------------------------
// What the lists guarantee.
// ---------------------------------------------------------------------------------------------

/// Strongest first, then by name, is a strict weak order.
pub proof fn lemma_scan_order()
    ensures
        strict_weak_order(|a: NetView, b: NetView| scan_lt(a, b)),
{
    let lt = |a: NetView, b: NetView| scan_lt(a, b);
    assert forall|a: NetView| !#[trigger] lt(a, a) by {
        lemma_bytes_lt_irreflexive(encode_utf8(a.0));
    }
    assert forall|a: NetView, b: NetView, c: NetView| #[trigger] lt(a, b) && #[trigger] lt(b, c) implies lt(a, c) by {
        if a.1 == b.1 && b.1 == c.1 {
            lemma_bytes_lt_transitive(encode_utf8(a.0), encode_utf8(b.0), encode_utf8(c.0));
        }
    }
    assert forall|a: NetView, b: NetView, c: NetView| #![trigger lt(a, b), lt(b, c)] !lt(a, b) && !lt(b, c) implies !lt(a, c) by {
        if a.1 == b.1 && b.1 == c.1 {
            lemma_bytes_lt_negative_transitive(encode_utf8(a.0), encode_utf8(b.0), encode_utf8(c.0));
        }
    }
}

proof fn lemma_find_net_found(acc: Seq<NetView>, ssid: Seq<char>, security: Security)
    ensures
        ({
            let r = find_net(acc, ssid, security);
            &&& -1 <= r < acc.len()
            &&& r >= 0 ==> acc[r].0 == ssid && acc[r].2 == security
            &&& r < 0 ==> forall|j: int| 0 <= j < acc.len() ==> !(#[trigger] acc[j].0 == ssid && acc[j].2 == security)
        }),
    decreases acc.len(),
{
    if acc.len() > 0 && !(acc[0].0 == ssid && acc[0].2 == security) {
        let t = acc.drop_first();
        lemma_find_net_found(t, ssid, security);
        let rt = find_net(t, ssid, security);
        if rt >= 0 {
            assert(acc[rt + 1] == t[rt]);
        } else {
            assert forall|j: int| 0 <= j < acc.len() implies !(#[trigger] acc[j].0 == ssid && acc[j].2 == security) by {
                if j > 0 {
                    assert(acc[j] == t[j - 1]);
                }
            }
        }
    }
}

/// The name and security a scan lists a network under.
pub open spec fn net_key(n: NetView) -> (Seq<char>, Security) {
    (n.0, n.2)
}

proof fn lemma_scan_fold_distinct(rows: Seq<Seq<char>>)
    ensures
        distinct_by(scan_fold(rows), |n: NetView| net_key(n)),
    decreases rows.len(),
{
    if rows.len() > 0 {
        lemma_scan_fold_distinct(rows.drop_last());
        let acc = scan_fold(rows.drop_last());
        match scan_entry(rows.last()) {
            Some(n) => {
                lemma_find_net_found(acc, n.0, n.2);
                let j = find_net(acc, n.0, n.2);
                let r = merge_scan(acc, n);
                if j >= 0 {
                    assert forall|i: int| 0 <= i < r.len() implies net_key(#[trigger] r[i]) == net_key(acc[i]) by {}
                    assert forall|i: int, k: int| 0 <= i < k < r.len() implies net_key(#[trigger] r[i]) != net_key(
                        #[trigger] r[k],
                    ) by {
                        assert(net_key(r[i]) == net_key(acc[i]));
                        assert(net_key(r[k]) == net_key(acc[k]));
                    }
                } else {
                    assert forall|i: int, k: int| 0 <= i < k < r.len() implies net_key(#[trigger] r[i]) != net_key(
                        #[trigger] r[k],
                    ) by {
                        assert(r[i] == acc[i]);
                        if k < acc.len() {
                            assert(r[k] == acc[k]);
                        }
                    }
                }
            },
            None => {},
        }
    }
}

/// A scan lists each name and security at most once: a network seen twice, or seen by two
/// access points, is one row.
pub proof fn lemma_scan_lists_each_network_once(text: Seq<char>)
    ensures
        forall|i: int, j: int|
            0 <= i < j < scan_result(text).len() ==> net_key(#[trigger] scan_result(text)[i]) != net_key(
                #[trigger] scan_result(text)[j],
            ),
{
    let key = |n: NetView| net_key(n);
    let lt = |a: NetView, b: NetView| scan_lt(a, b);
    lemma_scan_fold_distinct(lines(text));
    lemma_sort_by_distinct(scan_fold(lines(text)), lt, key);
    let r = scan_result(text);
    assert forall|i: int, j: int| 0 <= i < j < r.len() implies net_key(#[trigger] r[i]) != net_key(#[trigger] r[j]) by {
        assert(key(r[i]) != key(r[j]));
    }
}

/// A scan is listed strongest first: no network follows a stronger one, and among equally
/// strong ones no name follows one that sorts after it.
pub proof fn lemma_scan_strongest_first(text: Seq<char>)
    ensures
        sorted_by(scan_result(text), |a: NetView, b: NetView| scan_lt(a, b)),
        forall|i: int, j: int|
            0 <= i < j < scan_result(text).len() ==> (#[trigger] scan_result(text)[i]).1 >= (
            #[trigger] scan_result(text)[j]).1,
{
    let lt = |a: NetView, b: NetView| scan_lt(a, b);
    lemma_scan_order();
    lemma_sort_by_sorted(scan_fold(lines(text)), lt);
    let r = scan_result(text);
    assert forall|i: int, j: int| 0 <= i < j < r.len() implies (#[trigger] r[i]).1 >= (#[trigger] r[j]).1 by {
        assert(!lt(r[j], r[i]));
    }
}

/// Alphabetical, then by exact spelling, is a strict weak order.
pub proof fn lemma_name_order()
    ensures
        strict_weak_order(|a: Seq<char>, b: Seq<char>| name_lt(a, b)),
{
    let lt = |a: Seq<char>, b: Seq<char>| name_lt(a, b);
    assert forall|a: Seq<char>| !#[trigger] lt(a, a) by {
        lemma_bytes_lt_irreflexive(encode_utf8(lowercase(a)));
        lemma_bytes_lt_irreflexive(encode_utf8(a));
    }
    assert forall|a: Seq<char>, b: Seq<char>, c: Seq<char>| #[trigger] lt(a, b) && #[trigger] lt(b, c) implies lt(a, c) by {
        let (la, lb, lc) = (encode_utf8(lowercase(a)), encode_utf8(lowercase(b)), encode_utf8(lowercase(c)));
        if bytes_lt(la, lb) && bytes_lt(lb, lc) {
            lemma_bytes_lt_transitive(la, lb, lc);
        }
        if la == lb && lb == lc {
            lemma_bytes_lt_irreflexive(la);
            lemma_bytes_lt_transitive(encode_utf8(a), encode_utf8(b), encode_utf8(c));
        }
    }
    assert forall|a: Seq<char>, b: Seq<char>, c: Seq<char>| #![trigger lt(a, b), lt(b, c)] !lt(a, b) && !lt(b, c) implies !lt(a, c) by {
        let (la, lb, lc) = (encode_utf8(lowercase(a)), encode_utf8(lowercase(b)), encode_utf8(lowercase(c)));
        lemma_bytes_lt_negative_transitive(la, lb, lc);
        if la == lc {
            if la != lb {
                lemma_bytes_lt_total(la, lb);
            }
            if la == lb {
                lemma_bytes_lt_negative_transitive(encode_utf8(a), encode_utf8(b), encode_utf8(c));
            }
        }
    }
}

/// Saved networks are listed alphabetically: no name follows one it sorts before, ignoring
/// case first and then by exact spelling.
pub proof fn lemma_saved_names_alphabetical(profiles: Seq<ProfView>)
    ensures
        sorted_by(
            sort_by(names_of(profiles), |a: Seq<char>, b: Seq<char>| name_lt(a, b)),
            |a: Seq<char>, b: Seq<char>| name_lt(a, b),
        ),
{
    lemma_name_order();
    lemma_sort_by_sorted(names_of(profiles), |a: Seq<char>, b: Seq<char>| name_lt(a, b));
}

proof fn lemma_profiles_from_blocks(rest: Seq<char>, acc: Seq<ProfView>)
    requires
        profiles_from(rest, acc) is Some,
    ensures
        blocks(profiles_from(rest, acc)->0) == blocks(acc) + rest,
    decreases rest.len(),
{
    reveal_strlit("network={\n");
    reveal_strlit("}\n");
    if rest.len() == 0 {
        assert(blocks(acc) + rest =~= blocks(acc));
    } else {
        let body = rest.skip(10);
        let (fields, next) = split_once_seq(body, "}\n"@)->0;
        let ssid = profile_ssid(fields)->0;
        let block = "network={\n"@ + fields + "}\n"@;
        let acc2 = acc.push((ssid, block));
        crate::text::lemma_find_seq_found(body, "}\n"@);
        let i = crate::text::find_seq(body, "}\n"@);
        assert(body =~= fields + "}\n"@ + next) by {
            assert(body.skip(i).take(2) =~= "}\n"@);
            assert forall|k: int| 0 <= k < body.len() implies body[k] == (fields + "}\n"@ + next)[k] by {
                if i <= k < i + 2 {
                    assert(body[k] == body.skip(i).take(2)[k - i]);
                }
            }
        }
        assert(rest =~= "network={\n"@ + body) by {
            assert(rest.take(10) =~= "network={\n"@);
        }
        lemma_profiles_from_blocks(next, acc2);
        assert(acc2.drop_last() =~= acc);
        assert(blocks(acc2) == blocks(acc) + block);
        assert(blocks(acc) + block + next =~= blocks(acc) + rest);
    }
}

/// A saved-networks file that reads back is exactly what writing back the networks it reads
/// as produces: reading and writing again changes nothing, and the rewrite reads the same.
pub proof fn lemma_saved_profiles_round_trip(config: Seq<char>)
    requires
        saved_profiles(config) is Some,
    ensures
        header() + blocks(saved_profiles(config)->0) == config,
        saved_profiles(header() + blocks(saved_profiles(config)->0)) == saved_profiles(config),
{
    let rest = strip_prefix(config, header())->0;
    lemma_profiles_from_blocks(rest, seq![]);
    assert(blocks(seq![]) =~= Seq::<char>::empty());
    assert(config =~= header() + rest) by {
        assert(config.take(header().len() as int) =~= header());
    }
    assert(header() + blocks(saved_profiles(config)->0) =~= config);
}

/// Wi-Fi reconnects by itself at boot when a network is saved and Wi-Fi was left on.
pub fn auto_connect(saved: bool, enabled: bool) -> (b: bool)
    ensures
        b == (saved && enabled),
{
    saved && enabled
}

/// A saved block that reads as its own network: `network={`, lines holding the network's
/// name in hexadecimal and no `}` ending a line, then `}`.
pub open spec fn block_reads_as(p: ProfView, fields: Seq<char>) -> bool {
    &&& p.1 == "network={\n"@ + fields + "}\n"@
    &&& !contains_seq(fields, "}\n"@)
    &&& profile_ssid(fields) == Some(p.0)
    &&& no_control(p.0)
}

pub open spec fn block_ok(p: ProfView) -> bool {
    exists|fields: Seq<char>| block_reads_as(p, fields)
}

/// No two saved networks share a name.
pub open spec fn names_distinct(ps: Seq<ProfView>) -> bool {
    forall|i: int, j: int| 0 <= i < j < ps.len() ==> (#[trigger] ps[i]).0 != (#[trigger] ps[j]).0
}

proof fn lemma_blocks_front(qs: Seq<ProfView>)
    requires
        qs.len() > 0,
    ensures
        blocks(qs) == qs[0].1 + blocks(qs.skip(1)),
    decreases qs.len(),
{
    if qs.len() == 1 {
        assert(qs.drop_last() =~= Seq::<ProfView>::empty());
        assert(qs.skip(1) =~= Seq::<ProfView>::empty());
        assert(blocks(qs.drop_last()) =~= Seq::<char>::empty());
        assert(qs.last() == qs[0]);
        assert(blocks(qs.skip(1)) =~= Seq::<char>::empty());
        assert(blocks(qs) =~= qs[0].1);
    } else {
        let t = qs.drop_last();
        lemma_blocks_front(t);
        assert(t.skip(1) =~= qs.skip(1).drop_last());
        assert(qs.skip(1).last() == qs.last());
        assert(blocks(qs) =~= qs[0].1 + blocks(qs.skip(1)));
    }
}

/// Where a block's fields end, the block's closing line begins.
proof fn lemma_fields_end(fields: Seq<char>, tail: Seq<char>)
    requires
        !contains_seq(fields, "}\n"@),
    ensures
        split_once_seq(fields + "}\n"@ + tail, "}\n"@) == Some((fields, tail)),
{
    reveal_strlit("}\n");
    let body = fields + "}\n"@ + tail;
    let p = "}\n"@;
    let k = fields.len() as int;
    assert forall|j: int| 0 <= j < k implies !has_prefix(#[trigger] body.skip(j), p) by {
        if has_prefix(body.skip(j), p) {
            assert(body.skip(j).take(2)[0] == body[j]);
            assert(body.skip(j).take(2)[1] == body[j + 1]);
            if j + 1 < k {
                assert(fields.subrange(j, j + 2) =~= p);
                assert(crate::text::occurs_at(fields, p, j));
            } else {
                assert(body[j + 1] == '}');
            }
        }
    }
    assert(body.skip(k).take(2) =~= p);
    crate::text::lemma_find_seq_at(body, p, k);
    assert(body.take(k) =~= fields);
    assert(body.skip(k + 2) =~= tail);
}

/// A block that reads as its own network is read as that network when none before it has its
/// name, and refused when one has.
proof fn lemma_read_one_block(q: ProfView, fields: Seq<char>, tail: Seq<char>, acc: Seq<ProfView>)
    requires
        block_reads_as(q, fields),
    ensures
        !has_name(acc, q.0) ==> profiles_from(q.1 + tail, acc) == profiles_from(tail, acc.push(q)),
        has_name(acc, q.0) ==> profiles_from(q.1 + tail, acc) is None,
{
    reveal_strlit("network={\n");
    let rest = q.1 + tail;
    assert(rest =~= "network={\n"@ + (fields + "}\n"@ + tail));
    assert(rest.take(10) =~= "network={\n"@);
    assert(rest.skip(10) =~= fields + "}\n"@ + tail);
    lemma_fields_end(fields, tail);
    assert(acc.push((q.0, "network={\n"@ + fields + "}\n"@)) =~= acc.push(q));
}

/// Blocks that each read as their own network, with distinct names none of which was read
/// before, read back as exactly those networks.
proof fn lemma_read_blocks(qs: Seq<ProfView>, acc: Seq<ProfView>)
    requires
        forall|i: int| 0 <= i < qs.len() ==> block_ok(#[trigger] qs[i]),
        names_distinct(qs),
        forall|i: int| 0 <= i < qs.len() ==> !has_name(acc, (#[trigger] qs[i]).0),
    ensures
        profiles_from(blocks(qs), acc) == Some(acc + qs),
    decreases qs.len(),
{
    if qs.len() == 0 {
        assert(acc + qs =~= acc);
    } else {
        let q = qs[0];
        assert(block_ok(qs[0]));
        let fields = choose|fields: Seq<char>| block_reads_as(q, fields);
        let more = qs.skip(1);
        lemma_blocks_front(qs);
        assert(!has_name(acc, q.0));
        lemma_read_one_block(q, fields, blocks(more), acc);
        let acc2 = acc.push(q);
        assert forall|i: int| 0 <= i < more.len() implies block_ok(#[trigger] more[i]) by {
            assert(more[i] == qs[i + 1]);
        }
        assert forall|i: int, j: int| 0 <= i < j < more.len() implies (#[trigger] more[i]).0 != (#[trigger] more[j]).0 by {
            assert(more[i] == qs[i + 1] && more[j] == qs[j + 1]);
        }
        assert forall|i: int| 0 <= i < more.len() implies !has_name(acc2, (#[trigger] more[i]).0) by {
            assert(more[i] == qs[i + 1]);
            assert(qs[0].0 != qs[i + 1].0);
            if has_name(acc2, more[i].0) {
                let m = choose|m: int| 0 <= m < acc2.len() && (#[trigger] acc2[m]).0 == more[i].0;
                if m < acc.len() {
                    assert(acc2[m] == acc[m]);
                }
            }
        }
        lemma_read_blocks(more, acc2);
        assert(acc2 + more =~= acc + qs);
    }
}

/// Every network a saved file reads as comes from a block that reads as it, and no two share
/// a name.
proof fn lemma_profiles_from_ok(rest: Seq<char>, acc: Seq<ProfView>)
    requires
        profiles_from(rest, acc) is Some,
        forall|i: int| 0 <= i < acc.len() ==> block_ok(#[trigger] acc[i]),
        names_distinct(acc),
    ensures
        forall|i: int|
            0 <= i < (profiles_from(rest, acc)->0).len() ==> block_ok(#[trigger] (profiles_from(rest, acc)->0)[i]),
        names_distinct(profiles_from(rest, acc)->0),
    decreases rest.len(),
{
    reveal_strlit("network={\n");
    reveal_strlit("}\n");
    if rest.len() > 0 {
        let body = rest.skip(10);
        let (fields, next) = split_once_seq(body, "}\n"@)->0;
        let ssid = profile_ssid(fields)->0;
        let block = "network={\n"@ + fields + "}\n"@;
        let acc2 = acc.push((ssid, block));
        let i = crate::text::find_seq(body, "}\n"@);
        crate::text::lemma_find_seq_first(body, "}\n"@);
        assert(!contains_seq(fields, "}\n"@)) by {
            if contains_seq(fields, "}\n"@) {
                let j = choose|j: int| crate::text::occurs_at(fields, "}\n"@, j);
                assert(body.skip(j).take(2) =~= fields.subrange(j, j + 2));
                assert(crate::text::has_prefix(body.skip(j), "}\n"@));
            }
        }
        assert(block_reads_as((ssid, block), fields));
        assert forall|k: int| 0 <= k < acc2.len() implies block_ok(#[trigger] acc2[k]) by {
            if k < acc.len() {
                assert(acc2[k] == acc[k]);
            }
        }
        assert forall|a: int, b: int| 0 <= a < b < acc2.len() implies (#[trigger] acc2[a]).0 != (#[trigger] acc2[b]).0 by {
            assert(acc2[a] == acc[a]);
            if b < acc.len() {
                assert(acc2[b] == acc[b]);
            }
        }
        lemma_profiles_from_ok(next, acc2);
    }
}

proof fn lemma_without_keeps(ps: Seq<ProfView>, ssid: Seq<char>)
    requires
        names_distinct(ps),
    ensures
        forall|k: int| 0 <= k < without(ps, ssid).len() ==> ps.contains(#[trigger] without(ps, ssid)[k]),
        forall|k: int| 0 <= k < without(ps, ssid).len() ==> (#[trigger] without(ps, ssid)[k]).0 != ssid,
        names_distinct(without(ps, ssid)),
    decreases ps.len(),
{
    if ps.len() > 0 {
        let t = ps.drop_last();
        assert forall|i: int, j: int| 0 <= i < j < t.len() implies (#[trigger] t[i]).0 != (#[trigger] t[j]).0 by {
            assert(t[i] == ps[i] && t[j] == ps[j]);
        }
        lemma_without_keeps(t, ssid);
        let w = without(t, ssid);
        let r = without(ps, ssid);
        assert forall|k: int| 0 <= k < r.len() implies ps.contains(#[trigger] r[k]) by {
            if k < w.len() {
                assert(r[k] == w[k]);
                let m = choose|m: int| 0 <= m < t.len() && t[m] == w[k];
                assert(ps[m] == t[m]);
            } else {
                assert(ps[ps.len() - 1] == r[k]);
            }
        }
        if ps.last().0 != ssid {
            assert forall|a: int, b: int| 0 <= a < b < r.len() implies (#[trigger] r[a]).0 != (#[trigger] r[b]).0 by {
                assert(r[a] == w[a]);
                if b < w.len() {
                    assert(r[b] == w[b]);
                } else {
                    let m = choose|m: int| 0 <= m < t.len() && t[m] == w[a];
                    assert(ps[m] == t[m]);
                    assert(ps[ps.len() - 1] == ps.last());
                }
            }
        }
    }
}

/// Forgetting a saved network leaves a file the others read back from: the rewritten file
/// reads as the saved networks less the one forgotten, in their order.
pub proof fn lemma_forgetting_keeps_the_rest(config: Seq<char>, ssid: Seq<char>)
    requires
        saved_profiles(config) is Some,
    ensures
        saved_profiles(header() + blocks(without(saved_profiles(config)->0, ssid))) == Some(
            without(saved_profiles(config)->0, ssid),
        ),
{
    let rest = strip_prefix(config, header())->0;
    lemma_profiles_from_ok(rest, seq![]);
    let ps = saved_profiles(config)->0;
    lemma_without_keeps(ps, ssid);
    let w = without(ps, ssid);
    assert forall|i: int| 0 <= i < w.len() implies block_ok(#[trigger] w[i]) by {
        let m = choose|m: int| 0 <= m < ps.len() && ps[m] == w[i];
    }
    lemma_read_blocks(w, seq![]);
    assert(Seq::<ProfView>::empty() + w =~= w);
    let written = header() + blocks(w);
    assert(written.take(header().len() as int) =~= header());
    assert(written.skip(header().len() as int) =~= blocks(w));
}

/// A lowercase hexadecimal digit character.
pub open spec fn is_hex_lower_char(c: char) -> bool {
    ('0' <= c && c <= '9') || ('a' <= c && c <= 'f')
}

proof fn lemma_hex_lower_digits(b: Seq<u8>)
    ensures
        hex_lower(b).len() == 2 * b.len(),
        forall|i: int| 0 <= i < hex_lower(b).len() ==> is_hex_lower_char(#[trigger] hex_lower(b)[i]),
    decreases b.len(),
{
    if b.len() > 0 {
        lemma_hex_lower_digits(b.drop_last());
        let t = hex_lower(b.drop_last());
        let h = hex_lower(b);
        assert forall|i: int| 0 <= i < h.len() implies is_hex_lower_char(#[trigger] h[i]) by {
            if i < t.len() {
                assert(h[i] == t[i]);
            }
        }
    }
}

/// Hexadecimal written by `hex_lower` reads back as the bytes it was written from.
proof fn lemma_hex_round_trip(b: Seq<u8>)
    ensures
        hex_pairs(encode_utf8(hex_lower(b))) == Some(b),
    decreases b.len(),
{
    let h = hex_lower(b);
    lemma_hex_lower_digits(b);
    assert(vstd::utf8::is_ascii_chars(h));
    vstd::utf8::is_ascii_chars_encode_utf8(h);
    let e = encode_utf8(h);
    if b.len() > 0 {
        let t = b.drop_last();
        lemma_hex_round_trip(t);
        let ht = hex_lower(t);
        lemma_hex_lower_digits(t);
        assert(vstd::utf8::is_ascii_chars(ht));
        vstd::utf8::is_ascii_chars_encode_utf8(ht);
        assert(e.take(e.len() - 2) =~= encode_utf8(ht)) by {
            assert forall|i: int| 0 <= i < e.len() - 2 implies #[trigger] e.take(e.len() - 2)[i] == encode_utf8(ht)[i] by {
                assert(h[i] == ht[i]);
            }
        }
        let hi = (b.last() / 16) as int;
        let lo = (b.last() % 16) as int;
        assert(h[h.len() - 2] == nibble_char(hi));
        assert(h[h.len() - 1] == nibble_char(lo));
        assert(e[e.len() - 2] == h[h.len() - 2] as u8);
        assert(e[e.len() - 1] == h[h.len() - 1] as u8);
        assert(t.push(b.last()) =~= b);
    } else {
        assert(e =~= Seq::<u8>::empty());
    }
}

/// An ASCII character of a text is one of its UTF-8 bytes.
proof fn lemma_ascii_char_encoded(s: Seq<char>, i: int)
    requires
        0 <= i < s.len(),
        (s[i] as u32) < 128,
    ensures
        exists|k: int| 0 <= k < encode_utf8(s).len() && encode_utf8(s)[k] == #[trigger] (s[i] as u32) as u8,
    decreases s.len(),
{
    let first = vstd::utf8::encode_scalar(s[0] as u32);
    assert(encode_utf8(s) == first + encode_utf8(s.drop_first()));
    if i == 0 {
        let c = s[0] as u32;
        assert(vstd::utf8::leading_byte_width_1(c) == c as u8) by (bit_vector)
            requires
                c < 128,
        ;
        assert(encode_utf8(s)[0] == first[0]);
    } else {
        lemma_ascii_char_encoded(s.drop_first(), i - 1);
        assert(s.drop_first()[i - 1] == s[i]);
        let k = choose|k: int| 0 <= k < encode_utf8(s.drop_first()).len() && encode_utf8(s.drop_first())[k] == #[trigger] (
        s.drop_first()[i - 1] as u32) as u8;
        assert(encode_utf8(s)[first.len() + k] == encode_utf8(s.drop_first())[k]);
    }
}

/// The lines a profile's block holds, between `network={` and `}`.
pub open spec fn profile_fields(n: NetView, password: Seq<u8>, password_chars: Seq<char>) -> Seq<char> {
    "    ssid="@ + hex_lower(encode_utf8(n.0)) + "\n"@ + key_lines(n, password, password_chars)
}

proof fn lemma_key_lines_have_no_brace(n: NetView, password_chars: Seq<char>)
    requires
        validation_error(n, encode_utf8(password_chars)) is None,
    ensures
        forall|i: int|
            0 <= i < key_lines(n, encode_utf8(password_chars), password_chars).len() ==> #[trigger] key_lines(
                n,
                encode_utf8(password_chars),
                password_chars,
            )[i] != '}',
{
    reveal_strlit("    key_mgmt=NONE\n");
    reveal_strlit("    key_mgmt=WPA-PSK\n    psk=");
    reveal_strlit("\n");
    let pw = encode_utf8(password_chars);
    let k = key_lines(n, pw, password_chars);
    if n.2 != Security::Open {
        let psk = if is_hex_key(pw) {
            password_chars
        } else {
            hex_lower(pbkdf2_hmac_sha1(pw, encode_utf8(n.0), 4096, 32))
        };
        assert forall|i: int| 0 <= i < psk.len() implies #[trigger] psk[i] != '}' by {
            if is_hex_key(pw) {
                if psk[i] == '}' {
                    lemma_ascii_char_encoded(password_chars, i);
                    let j = choose|j: int| 0 <= j < pw.len() && pw[j] == #[trigger] (password_chars[i] as u32) as u8;
                    assert(!is_hex_byte(pw[j]));
                }
            } else {
                lemma_hex_lower_digits(pbkdf2_hmac_sha1(pw, encode_utf8(n.0), 4096, 32));
            }
        }
        let head = "    key_mgmt=WPA-PSK\n    psk="@;
        assert(k =~= head + psk + "\n"@);
        assert forall|i: int| 0 <= i < k.len() implies #[trigger] k[i] != '}' by {
            if head.len() <= i < head.len() + psk.len() {
                assert(k[i] == psk[i - head.len()]);
            }
        }
    }
}

/// The block a profile writes reads as the network it was written for, when that network's
/// name holds no control character.
proof fn lemma_profile_block_reads(n: NetView, password_chars: Seq<char>)
    requires
        validation_error(n, encode_utf8(password_chars)) is None,
        no_control(n.0),
    ensures
        block_reads_as(
            (n.0, network_block(n, encode_utf8(password_chars), password_chars)),
            profile_fields(n, encode_utf8(password_chars), password_chars),
        ),
{
    reveal_strlit("    ssid=");
    reveal_strlit("\n");
    reveal_strlit("ssid=");
    reveal_strlit("network={\n");
    reveal_strlit("}\n");
    reveal_strlit("network={\n    ssid=");
    let pw = encode_utf8(password_chars);
    let name = encode_utf8(n.0);
    let h = hex_lower(name);
    let k = key_lines(n, pw, password_chars);
    let fields = profile_fields(n, pw, password_chars);
    lemma_hex_lower_digits(name);
    lemma_key_lines_have_no_brace(n, password_chars);
    let pre = "    ssid="@;
    assert(fields =~= pre + h + seq!['\n'] + k);
    // no brace anywhere in the fields
    assert forall|i: int| 0 <= i < fields.len() implies #[trigger] fields[i] != '}' by {
        if pre.len() <= i < pre.len() + h.len() {
            assert(fields[i] == h[i - pre.len()]);
        } else if i > pre.len() + h.len() {
            assert(fields[i] == k[i - pre.len() - h.len() - 1]);
        }
    }
    assert(!contains_seq(fields, "}\n"@)) by {
        if contains_seq(fields, "}\n"@) {
            let j = choose|j: int| crate::text::occurs_at(fields, "}\n"@, j);
            assert(fields.subrange(j, j + 2)[0] == fields[j]);
        }
    }
    // the first line is the name's
    let line = pre + h;
    assert(crate::text::first_index(fields, '\n') == line.len()) by {
        assert forall|j: int| 0 <= j < line.len() implies fields[j] != '\n' by {
            if j >= pre.len() {
                assert(fields[j] == h[j - pre.len()]);
            }
        }
        crate::text::lemma_first_index_at(fields, '\n', line.len() as int);
    }
    assert(fields.take(line.len() as int) =~= line);
    assert(name.len() > 0);
    assert(line.last() == h[h.len() - 1]);
    assert(crate::text::strip_cr(line) == line);
    assert(lines(fields)[0] == line);
    // trimmed, it is `ssid=` and the hexadecimal name
    crate::text::lemma_trim_start_at(line, 4);
    assert(line.skip(4) =~= "ssid="@ + h);
    let body = line.skip(4);
    crate::text::lemma_trim_end_at(body, body.len() as int);
    assert(body.take(body.len() as int) =~= body);
    assert(trim(line) == body);
    assert(body.take(5) =~= "ssid="@);
    assert(body.skip(5) =~= h);
    assert(ssid_field(lines(fields)) == Some(h));
    // and the hexadecimal reads back as the name
    assert(vstd::utf8::is_ascii_chars(h));
    vstd::utf8::is_ascii_chars_encode_utf8(h);
    lemma_hex_round_trip(name);
    vstd::utf8::encode_utf8_valid_utf8(n.0);
    vstd::utf8::encode_utf8_decode_utf8(n.0);
    assert(profile_ssid(fields) == Some(n.0));
    assert(network_block(n, pw, password_chars) =~= "network={\n"@ + fields + "}\n"@);
}

/// A profile written for a network whose name holds no control character reads back as that
/// one network and nothing else: a name cannot add a block of its own.
pub proof fn lemma_profile_reads_back(n: NetView, password_chars: Seq<char>)
    requires
        validation_error(n, encode_utf8(password_chars)) is None,
        no_control(n.0),
    ensures
        saved_profiles(header() + network_block(n, encode_utf8(password_chars), password_chars)) == Some(
            seq![(n.0, network_block(n, encode_utf8(password_chars), password_chars))],
        ),
{
    let p = (n.0, network_block(n, encode_utf8(password_chars), password_chars));
    lemma_profile_block_reads(n, password_chars);
    let qs = seq![p];
    assert(block_ok(qs[0]));
    lemma_read_blocks(qs, seq![]);
    assert(blocks(qs) =~= p.1) by {
        assert(qs.drop_last() =~= Seq::<ProfView>::empty());
        assert(blocks(qs.drop_last()) =~= Seq::<char>::empty());
        assert(qs.last() == p);
    }
    assert(Seq::<ProfView>::empty() + qs =~= qs);
    let written = header() + p.1;
    assert(written.take(header().len() as int) =~= header());
    assert(written.skip(header().len() as int) =~= p.1);
}

/// Saving a network keeps every other saved network: the file written when a network joins
/// reads as the networks saved before, less any of the same name, and then the new one.
pub proof fn lemma_saving_keeps_the_rest(config: Seq<char>, n: NetView, password_chars: Seq<char>)
    requires
        saved_profiles(config) is Some,
        validation_error(n, encode_utf8(password_chars)) is None,
        no_control(n.0),
    ensures
        ({
            let block = network_block(n, encode_utf8(password_chars), password_chars);
            let kept = without(saved_profiles(config)->0, n.0).push((n.0, block));
            saved_profiles(header() + blocks(kept)) == Some(kept)
        }),
{
    let block = network_block(n, encode_utf8(password_chars), password_chars);
    let ps = saved_profiles(config)->0;
    let rest = strip_prefix(config, header())->0;
    lemma_profiles_from_ok(rest, seq![]);
    lemma_without_keeps(ps, n.0);
    let w = without(ps, n.0);
    let p = (n.0, block);
    let kept = w.push(p);
    lemma_profile_block_reads(n, password_chars);
    assert forall|i: int| 0 <= i < kept.len() implies block_ok(#[trigger] kept[i]) by {
        if i < w.len() {
            assert(kept[i] == w[i]);
            let m = choose|m: int| 0 <= m < ps.len() && ps[m] == w[i];
        }
    }
    assert forall|i: int, j: int| 0 <= i < j < kept.len() implies (#[trigger] kept[i]).0 != (#[trigger] kept[j]).0 by {
        assert(kept[i] == w[i]);
        if j < w.len() {
            assert(kept[j] == w[j]);
        }
    }
    lemma_read_blocks(kept, seq![]);
    assert(Seq::<ProfView>::empty() + kept =~= kept);
    let written = header() + blocks(kept);
    assert(written.take(header().len() as int) =~= header());
    assert(written.skip(header().len() as int) =~= blocks(kept));
}

/// Blocks that each read as their own network are refused as soon as one names a network
/// named before it, in the blocks or among those already read.
proof fn lemma_read_blocks_refused(qs: Seq<ProfView>, acc: Seq<ProfView>)
    requires
        forall|i: int| 0 <= i < qs.len() ==> block_ok(#[trigger] qs[i]),
        !names_distinct(qs) || exists|i: int| 0 <= i < qs.len() && has_name(acc, (#[trigger] qs[i]).0),
    ensures
        profiles_from(blocks(qs), acc) is None,
    decreases qs.len(),
{
    let q = qs[0];
    assert(block_ok(qs[0]));
    let fields = choose|fields: Seq<char>| block_reads_as(q, fields);
    let more = qs.skip(1);
    lemma_blocks_front(qs);
    lemma_read_one_block(q, fields, blocks(more), acc);
    if !has_name(acc, q.0) {
        let acc2 = acc.push(q);
        assert forall|i: int| 0 <= i < more.len() implies block_ok(#[trigger] more[i]) by {
            assert(more[i] == qs[i + 1]);
        }
        assert(!names_distinct(more) || exists|i: int| 0 <= i < more.len() && has_name(acc2, (#[trigger] more[i]).0)) by {
            if names_distinct(more) {
                if !names_distinct(qs) {
                    let (a, b) = choose|a: int, b: int| 0 <= a < b < qs.len() && (#[trigger] qs[a]).0 == (#[trigger] qs[b]).0;
                    assert(more[b - 1] == qs[b]);
                    if a == 0 {
                        assert(acc2[acc.len() as int] == q);
                        assert(has_name(acc2, more[b - 1].0));
                    } else {
                        assert(more[a - 1] == qs[a]);
                        assert(false);
                    }
                } else {
                    let i = choose|i: int| 0 <= i < qs.len() && has_name(acc, (#[trigger] qs[i]).0);
                    assert(i != 0);
                    assert(more[i - 1] == qs[i]);
                    let m = choose|m: int| 0 <= m < acc.len() && (#[trigger] acc[m]).0 == qs[i].0;
                    assert(acc2[m] == acc[m]);
                    assert(has_name(acc2, more[i - 1].0));
                }
            }
        }
        lemma_read_blocks_refused(more, acc2);
    }
}

/// Saved networks whose blocks each read as their own network render to a file that reads
/// back as exactly those networks, in their order, when no two share a name, and to a file
/// that is refused when two do.
pub proof fn lemma_rendered_profiles_read_back(ps: Seq<ProfView>)
    requires
        forall|i: int| 0 <= i < ps.len() ==> block_ok(#[trigger] ps[i]),
    ensures
        names_distinct(ps) ==> saved_profiles(header() + blocks(ps)) == Some(ps),
        !names_distinct(ps) ==> saved_profiles(header() + blocks(ps)) is None,
{
    let written = header() + blocks(ps);
    assert(written.take(header().len() as int) =~= header());
    assert(written.skip(header().len() as int) =~= blocks(ps));
    if names_distinct(ps) {
        lemma_read_blocks(ps, seq![]);
        assert(Seq::<ProfView>::empty() + ps =~= ps);
    } else {
        lemma_read_blocks_refused(ps, seq![]);
    }
}

/// The saved networks `profile` writes for these networks and passwords: each network's name
/// and its block.
pub open spec fn written_profiles(nets: Seq<NetView>, passwords: Seq<Seq<char>>) -> Seq<ProfView> {
    Seq::new(nets.len(), |i: int| (nets[i].0, network_block(nets[i], encode_utf8(passwords[i]), passwords[i])))
}

/// Networks each saved with the block `profile` writes for it, every name free of control
/// characters and every password one `profile` accepts, render to a file that reads back as
/// exactly those networks, in their order, when no two share a name, and to a file that is
/// refused when two do.
pub proof fn lemma_saved_networks_read_back(nets: Seq<NetView>, passwords: Seq<Seq<char>>)
    requires
        passwords.len() == nets.len(),
        forall|i: int| 0 <= i < nets.len() ==> validation_error(#[trigger] nets[i], encode_utf8(passwords[i])) is None,
        forall|i: int| 0 <= i < nets.len() ==> no_control((#[trigger] nets[i]).0),
    ensures
        names_distinct(written_profiles(nets, passwords)) ==> saved_profiles(
            header() + blocks(written_profiles(nets, passwords)),
        ) == Some(written_profiles(nets, passwords)),
        !names_distinct(written_profiles(nets, passwords)) ==> saved_profiles(
            header() + blocks(written_profiles(nets, passwords)),
        ) is None,
{
    let ps = written_profiles(nets, passwords);
    assert forall|i: int| 0 <= i < ps.len() implies block_ok(#[trigger] ps[i]) by {
        assert(validation_error(nets[i], encode_utf8(passwords[i])) is None);
        assert(no_control(nets[i].0));
        lemma_profile_block_reads(nets[i], passwords[i]);
    }
    lemma_rendered_profiles_read_back(ps);
}

/// A name a network can be saved under and read back by: 1 to 32 bytes, no control
/// character.
pub open spec fn savable_name(s: Seq<char>) -> bool {
    0 < encode_utf8(s).len() <= 32 && no_control(s)
}

proof fn lemma_scan_fold_names(rows: Seq<Seq<char>>)
    ensures
        forall|i: int| 0 <= i < scan_fold(rows).len() ==> savable_name((#[trigger] scan_fold(rows)[i]).0),
    decreases rows.len(),
{
    if rows.len() > 0 {
        lemma_scan_fold_names(rows.drop_last());
        let acc = scan_fold(rows.drop_last());
        match scan_entry(rows.last()) {
            Some(n) => {
                lemma_find_net_found(acc, n.0, n.2);
                let r = merge_scan(acc, n);
                assert forall|i: int| 0 <= i < r.len() implies savable_name((#[trigger] r[i]).0) by {
                    if i < acc.len() {
                        assert(r[i].0 == acc[i].0);
                    }
                }
            },
            None => {},
        }
    }
}

/// Every network a scan lists has a name it can be saved under: non-UTF-8 names, names with
/// control characters and empty or over-long names are left out. With a valid password, its
/// profile therefore reads back as itself (`lemma_profile_reads_back`).
pub proof fn lemma_scanned_names_can_be_saved(text: Seq<char>)
    ensures
        forall|i: int| 0 <= i < scan_result(text).len() ==> savable_name((#[trigger] scan_result(text)[i]).0),
{
    let lt = |a: NetView, b: NetView| scan_lt(a, b);
    let all = scan_fold(lines(text));
    lemma_scan_fold_names(lines(text));
    crate::sorting::lemma_sort_by_elements(all, lt);
    let r = scan_result(text);
    assert forall|i: int| 0 <= i < r.len() implies savable_name((#[trigger] r[i]).0) by {
        let m = choose|m: int| 0 <= m < all.len() && all[m] == r[i];
    }
}

/// A network whose scan flags name PSK is one the user joins with a password, whatever other
/// schemes (WPA, WPA2, RSN) the flags also name; only such a network asks for a password; and
/// a network listed as open names no security scheme at all.
pub proof fn lemma_scan_security(flags: Seq<char>)
    ensures
        contains_seq(flags, "PSK"@) ==> scan_security(flags) == Security::Personal,
        scan_security(flags) == Security::Personal ==> contains_seq(flags, "PSK"@),
        scan_security(flags) == Security::Open ==> !contains_seq(flags, "PSK"@) && !contains_seq(flags, "WEP"@)
            && !contains_seq(flags, "WPA"@) && !contains_seq(flags, "RSN"@) && !contains_seq(flags, "OWE"@)
            && !contains_seq(flags, "EAP"@) && !contains_seq(flags, "SAE"@),
{
}

/// A scan row read as a network is listed as one to join with a password exactly when its
/// flags column names PSK.
pub proof fn lemma_scan_rows_with_psk_ask_a_password(line: Seq<char>)
    ensures
        scan_entry(line) matches Some(n) ==> (scan_columns(line) matches Some((_, flags, _)) && (n.2
            == Security::Personal <==> contains_seq(flags, "PSK"@))),
{
}

/// The block written for an open network holds `key_mgmt=NONE` right after its name and
/// nothing else; one for a personal network holds `key_mgmt=WPA-PSK` and its key: the key
/// itself when it is 64 hexadecimal digits, else the PBKDF2 key of the passphrase and name.
pub proof fn lemma_profile_key_lines(n: NetView, password: Seq<u8>, password_chars: Seq<char>)
    ensures
        n.2 == Security::Open ==> network_block(n, password, password_chars) == "network={\n    ssid="@ + hex_lower(
            encode_utf8(n.0),
        ) + "\n"@ + "    key_mgmt=NONE\n"@ + "}\n"@,
        n.2 == Security::Personal && is_hex_key(password) ==> network_block(n, password, password_chars)
            == "network={\n    ssid="@ + hex_lower(encode_utf8(n.0)) + "\n"@ + "    key_mgmt=WPA-PSK\n    psk="@
            + password_chars + "\n"@ + "}\n"@,
        n.2 == Security::Personal && !is_hex_key(password) ==> network_block(n, password, password_chars)
            == "network={\n    ssid="@ + hex_lower(encode_utf8(n.0)) + "\n"@ + "    key_mgmt=WPA-PSK\n    psk="@
            + hex_lower(pbkdf2_hmac_sha1(password, encode_utf8(n.0), 4096, 32)) + "\n"@ + "}\n"@,
{
}

/// Saving or forgetting the network named `ssid` removes exactly the saved networks of that
/// name: every other saved network stays, in its order.
pub proof fn lemma_without_keeps_exactly_the_others(ps: Seq<ProfView>, ssid: Seq<char>)
    ensures
        without(ps, ssid) == ps.filter(|p: ProfView| p.0 != ssid),
    decreases ps.len(),
{
    reveal(Seq::filter);
    if ps.len() > 0 {
        lemma_without_keeps_exactly_the_others(ps.drop_last(), ssid);
    }
}

} // verus!
