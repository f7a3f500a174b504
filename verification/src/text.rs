//! Character and byte helpers shared by the parsers: the sequences they take apart and the
//! strings they hand back.
use vstd::prelude::*;
use vstd::utf8::*;

verus! {

broadcast use vstd::string::group_string_axioms;

// ---------------------------------------------------------------------------------------------
// Specifications over sequences.
// ---------------------------------------------------------------------------------------------

/// Where `x` first occurs in `s`, or -1 when it does not.
pub open spec fn first_index<A>(s: Seq<A>, x: A) -> int
    decreases s.len(),
{
    if s.len() == 0 {
        -1
    } else if s[0] == x {
        0
    } else {
        let r = first_index(s.drop_first(), x);
        if r < 0 {
            -1
        } else {
            r + 1
        }
    }
}

/// `s` cut at the first `x`, which belongs to neither side; `None` when there is none.
pub open spec fn split_once<A>(s: Seq<A>, x: A) -> Option<(Seq<A>, Seq<A>)> {
    let i = first_index(s, x);
    if 0 <= i < s.len() {
        Some((s.take(i), s.skip(i + 1)))
    } else {
        None
    }
}

/// `s` cut at every `x`, as `str::split` does: n separators give n + 1 pieces.
pub open spec fn split<A>(s: Seq<A>, x: A) -> Seq<Seq<A>>
    decreases s.len(),
{
    let i = first_index(s, x);
    if 0 <= i < s.len() {
        seq![s.take(i)] + split(s.skip(i + 1), x)
    } else {
        seq![s]
    }
}

/// A line without the carriage return that ended it.
pub open spec fn strip_cr(line: Seq<char>) -> Seq<char> {
    if line.len() > 0 && line.last() == '\r' {
        line.drop_last()
    } else {
        line
    }
}

/// The lines of a text, as `str::lines` gives them: split at each `\n`, a `\r` before it
/// dropped, and no empty line after a final line ending.
pub open spec fn lines(s: Seq<char>) -> Seq<Seq<char>>
    decreases s.len(),
{
    if s.len() == 0 {
        seq![]
    } else {
        let i = first_index(s, '\n');
        if 0 <= i < s.len() {
            seq![strip_cr(s.take(i))] + lines(s.skip(i + 1))
        } else {
            seq![s]
        }
    }
}

/// `p` begins `s`.
pub open spec fn has_prefix<A>(s: Seq<A>, p: Seq<A>) -> bool {
    p.len() <= s.len() && s.take(p.len() as int) == p
}

/// `p` occurs in `s` starting at `i`.
pub open spec fn occurs_at<A>(s: Seq<A>, p: Seq<A>, i: int) -> bool {
    0 <= i && i + p.len() <= s.len() && s.subrange(i, i + p.len()) == p
}

/// `p` occurs somewhere in `s`.
pub open spec fn contains_seq<A>(s: Seq<A>, p: Seq<A>) -> bool {
    exists|i: int| occurs_at(s, p, i)
}

/// Where `p` first occurs in `s`, or -1.
pub open spec fn find_seq<A>(s: Seq<A>, p: Seq<A>) -> int
    decreases s.len(),
{
    if has_prefix(s, p) {
        0
    } else if s.len() == 0 {
        -1
    } else {
        let r = find_seq(s.drop_first(), p);
        if r < 0 {
            -1
        } else {
            r + 1
        }
    }
}

/// `s` cut at the first occurrence of `p`, which belongs to neither side.
pub open spec fn split_once_seq<A>(s: Seq<A>, p: Seq<A>) -> Option<(Seq<A>, Seq<A>)> {
    let i = find_seq(s, p);
    if 0 <= i && i + p.len() <= s.len() {
        Some((s.take(i), s.skip(i + p.len())))
    } else {
        None
    }
}

/// Byte strings in the order `Ord` gives `[u8]` and `String`: lexicographic, a proper prefix
/// first.
pub open spec fn bytes_lt(a: Seq<u8>, b: Seq<u8>) -> bool
    decreases a.len(),
{
    if a.len() == 0 {
        b.len() > 0
    } else if b.len() == 0 {
        false
    } else if a[0] < b[0] {
        true
    } else if a[0] > b[0] {
        false
    } else {
        bytes_lt(a.drop_first(), b.drop_first())
    }
}

/// No byte string sorts before itself.
pub proof fn lemma_bytes_lt_irreflexive(a: Seq<u8>)
    ensures
        !bytes_lt(a, a),
    decreases a.len(),
{
    if a.len() > 0 {
        lemma_bytes_lt_irreflexive(a.drop_first());
    }
}

/// The byte order is transitive.
pub proof fn lemma_bytes_lt_transitive(a: Seq<u8>, b: Seq<u8>, c: Seq<u8>)
    requires
        bytes_lt(a, b),
        bytes_lt(b, c),
    ensures
        bytes_lt(a, c),
    decreases a.len(),
{
    if a.len() > 0 && b.len() > 0 && c.len() > 0 && a[0] == b[0] && b[0] == c[0] {
        lemma_bytes_lt_transitive(a.drop_first(), b.drop_first(), c.drop_first());
    }
}

/// Of two different byte strings, one sorts before the other.
pub proof fn lemma_bytes_lt_total(a: Seq<u8>, b: Seq<u8>)
    requires
        a != b,
    ensures
        bytes_lt(a, b) || bytes_lt(b, a),
    decreases a.len(),
{
    if a.len() == 0 {
        if b.len() == 0 {
            assert(a =~= b);
        }
    } else if b.len() > 0 && a[0] == b[0] {
        if a.drop_first() == b.drop_first() {
            assert(a =~= seq![a[0]] + a.drop_first());
            assert(b =~= seq![b[0]] + b.drop_first());
        }
        lemma_bytes_lt_total(a.drop_first(), b.drop_first());
    }
}

/// What sorts after neither of two neighbours in turn sorts after neither: `!(a < b)` and
/// `!(b < c)` give `!(a < c)`.
pub proof fn lemma_bytes_lt_negative_transitive(a: Seq<u8>, b: Seq<u8>, c: Seq<u8>)
    requires
        !bytes_lt(a, b),
        !bytes_lt(b, c),
    ensures
        !bytes_lt(a, c),
{
    if bytes_lt(a, c) {
        if a == b {
            assert(bytes_lt(b, c));
        } else if b == c {
            assert(bytes_lt(a, b));
        } else {
            lemma_bytes_lt_total(a, b);
            lemma_bytes_lt_total(b, c);
            lemma_bytes_lt_transitive(c, b, a);
            lemma_bytes_lt_transitive(a, c, a);
            lemma_bytes_lt_irreflexive(a);
        }
    }
}

/// The characters `char::is_control` is true of: the C0 and C1 control codes and DEL.
pub open spec fn is_control(c: char) -> bool {
    (c as u32) < 0x20 || (0x7f <= (c as u32) && (c as u32) < 0xa0)
}

/// No character of `s` is a control character.
pub open spec fn no_control(s: Seq<char>) -> bool {
    forall|i: int| 0 <= i < s.len() ==> !is_control(#[trigger] s[i])
}

/// An ASCII hexadecimal digit, either case.
pub open spec fn is_hex_byte(b: u8) -> bool {
    (48 <= b && b <= 57) || (97 <= b && b <= 102) || (65 <= b && b <= 70)
}

/// The value of an ASCII hexadecimal digit.
pub open spec fn hex_value(b: u8) -> int {
    if 48 <= b && b <= 57 {
        b - 48
    } else if 97 <= b && b <= 102 {
        b - 87
    } else {
        b - 55
    }
}

// ---------------------------------------------------------------------------------------------
// Lemmas.
// ---------------------------------------------------------------------------------------------

/// `first_index` is the first position holding `x`: when `k` is that position (or the length,
/// when there is none), `first_index` says so.
pub proof fn lemma_first_index_at<A>(s: Seq<A>, x: A, k: int)
    requires
        0 <= k <= s.len(),
        forall|j: int| 0 <= j < k ==> s[j] != x,
        k < s.len() ==> s[k] == x,
    ensures
        first_index(s, x) == if k == s.len() { -1 } else { k },
    decreases s.len(),
{
    if s.len() == 0 {
    } else if s[0] == x {
        if k > 0 {
            assert(s[0] != x);
        }
    } else {
        assert(k > 0);
        let t = s.drop_first();
        assert forall|j: int| 0 <= j < k - 1 implies t[j] != x by {
            assert(t[j] == s[j + 1]);
        }
        if k - 1 < t.len() {
            assert(t[k - 1] == s[k]);
        }
        lemma_first_index_at(t, x, k - 1);
    }
}

/// `find_seq` is the first occurrence of `p`, when it occurs at `k` and nowhere before.
pub proof fn lemma_find_seq_at<A>(s: Seq<A>, p: Seq<A>, k: int)
    requires
        0 <= k <= s.len(),
        forall|j: int| 0 <= j < k ==> !has_prefix(#[trigger] s.skip(j), p),
        has_prefix(s.skip(k), p),
    ensures
        find_seq(s, p) == k,
        k + p.len() <= s.len(),
    decreases s.len(),
{
    assert(s.skip(0) =~= s);
    if k == 0 {
    } else {
        assert(!has_prefix(s.skip(0), p));
        let t = s.drop_first();
        assert forall|j: int| 0 <= j < k - 1 implies !has_prefix(#[trigger] t.skip(j), p) by {
            assert(t.skip(j) =~= s.skip(j + 1));
        }
        assert(t.skip(k - 1) =~= s.skip(k));
        lemma_find_seq_at(t, p, k - 1);
    }
}

/// Where `find_seq` finds `p`, `p` is.
pub proof fn lemma_find_seq_found<A>(s: Seq<A>, p: Seq<A>)
    requires
        find_seq(s, p) >= 0,
    ensures
        has_prefix(s.skip(find_seq(s, p)), p),
        find_seq(s, p) + p.len() <= s.len(),
    decreases s.len(),
{
    if has_prefix(s, p) {
        assert(s.skip(0) =~= s);
    } else {
        let t = s.drop_first();
        lemma_find_seq_found(t, p);
        assert(t.skip(find_seq(t, p)) =~= s.skip(find_seq(t, p) + 1));
    }
}

/// Before where `find_seq` finds `p`, `p` does not begin.
pub proof fn lemma_find_seq_first<A>(s: Seq<A>, p: Seq<A>)
    ensures
        find_seq(s, p) <= s.len(),
        forall|j: int| 0 <= j < find_seq(s, p) ==> !has_prefix(#[trigger] s.skip(j), p),
    decreases s.len(),
{
    if !has_prefix(s, p) && s.len() > 0 {
        let t = s.drop_first();
        lemma_find_seq_first(t, p);
        assert(s.skip(0) =~= s);
        assert forall|j: int| 0 <= j < find_seq(s, p) implies !has_prefix(#[trigger] s.skip(j), p) by {
            if j > 0 {
                assert(s.skip(j) =~= t.skip(j - 1));
            }
        }
    }
}

/// `find_seq` is -1 when `p` occurs nowhere.
pub proof fn lemma_find_seq_none<A>(s: Seq<A>, p: Seq<A>)
    requires
        forall|j: int| 0 <= j <= s.len() ==> !has_prefix(#[trigger] s.skip(j), p),
    ensures
        find_seq(s, p) == -1,
    decreases s.len(),
{
    assert(s.skip(0) =~= s);
    if s.len() > 0 {
        let t = s.drop_first();
        assert forall|j: int| 0 <= j <= t.len() implies !has_prefix(#[trigger] t.skip(j), p) by {
            assert(t.skip(j) =~= s.skip(j + 1));
        }
        lemma_find_seq_none(t, p);
    }
}

// ---------------------------------------------------------------------------------------------
// Executable helpers.
// ---------------------------------------------------------------------------------------------

/// The characters of a string, in order.
pub fn to_chars(s: &str) -> (out: Vec<char>)
    ensures
        out@ == s@,
{
    let mut out: Vec<char> = Vec::new();
    for c in it: s.chars()
        invariant
            it.seq() == s@,
            out@ == it.seq().take(it.index() as int),
    {
        out.push(c);
    }
    out
}

/// `String::from_iter` over the characters: the string that holds them, in order.
#[verifier::external_body]
pub(crate) fn from_chars(chars: &[char]) -> (s: String)
    ensures
        s@ == chars@,
{
    chars.iter().collect()
}

/// `String::from_utf8`: the text the bytes encode, when they are well-formed UTF-8.
#[verifier::external_body]
pub(crate) fn string_from_utf8(bytes: Vec<u8>) -> (s: Option<String>)
    ensures
        s is Some <==> valid_utf8(bytes@),
        s matches Some(t) ==> t@ == decode_utf8(bytes@),
{
    String::from_utf8(bytes).ok()
}

/// The text of a string literal or slice, owned.
pub fn owned(s: &str) -> (out: String)
    ensures
        out@ == s@,
{
    s.to_owned()
}

/// The elements of `s` from `from` up to `to`.
pub fn copy_range<T: Copy>(s: &[T], from: usize, to: usize) -> (out: Vec<T>)
    requires
        from <= to <= s@.len(),
    ensures
        out@ == s@.subrange(from as int, to as int),
{
    let mut out: Vec<T> = Vec::new();
    let mut i = from;
    while i < to
        invariant
            from <= i <= to <= s@.len(),
            out@ == s@.subrange(from as int, i as int),
        decreases to - i,
    {
        out.push(s[i]);
        i += 1;
    }
    out
}

/// The first `x` at or after `from`, or the length when there is none.
pub fn find_char(s: &[char], from: usize, x: char) -> (k: usize)
    requires
        from <= s@.len(),
    ensures
        from <= k <= s@.len(),
        forall|j: int| from <= j < k ==> s@[j] != x,
        k < s@.len() ==> s@[k as int] == x,
        first_index(s@.skip(from as int), x) == if k == s@.len() { -1 } else { k - from },
{
    let mut k = from;
    while k < s.len() && s[k] != x
        invariant
            from <= k <= s@.len(),
            forall|j: int| from <= j < k ==> s@[j] != x,
        decreases s@.len() - k,
    {
        k += 1;
    }
    proof {
        let t = s@.skip(from as int);
        assert forall|j: int| 0 <= j < k - from implies t[j] != x by {
            assert(t[j] == s@[j + from]);
        }
        if k < s@.len() {
            assert(t[k - from] == s@[k as int]);
        }
        lemma_first_index_at(t, x, k - from);
    }
    k
}

/// `s` cut at the first `x`.
pub fn split_once_char(s: &[char], x: char) -> (r: Option<(Vec<char>, Vec<char>)>)
    ensures
        match split_once(s@, x) {
            Some((a, b)) => r matches Some((u, v)) && u@ == a && v@ == b,
            None => r is None,
        },
{
    let k = find_char(s, 0, x);
    assert(s@.skip(0) =~= s@);
    if k == s.len() {
        None
    } else {
        let a = copy_range(s, 0, k);
        let b = copy_range(s, k + 1, s.len());
        assert(a@ =~= s@.take(k as int));
        assert(b@ =~= s@.skip(k + 1));
        Some((a, b))
    }
}

/// The pieces of `s` between each `x`, as `str::split` gives them.
pub fn split_char(s: &[char], x: char) -> (out: Vec<Vec<char>>)
    ensures
        out@.map_values(|v: Vec<char>| v@) == split(s@, x),
{
    let mut out: Vec<Vec<char>> = Vec::new();
    let mut from: usize = 0;
    let ghost mut done: Seq<Seq<char>> = seq![];
    assert(s@.skip(0) =~= s@);
    loop
        invariant
            from <= s@.len(),
            out@.map_values(|v: Vec<char>| v@) == done,
            done + split(s@.skip(from as int), x) == split(s@, x),
        decreases s@.len() - from,
    {
        let k = find_char(s, from, x);
        let ghost rest = s@.skip(from as int);
        let piece = copy_range(s, from, k);
        if k == s.len() {
            proof {
                assert(piece@ =~= rest);
                assert(split(rest, x) == seq![rest]);
                done = done.push(piece@);
            }
            out.push(piece);
            proof {
                assert(out@.map_values(|v: Vec<char>| v@) =~= done);
                assert(done =~= split(s@, x)) by {
                    assert(done =~= done.drop_last() + seq![rest]);
                }
            }
            return out;
        }
        proof {
            assert(piece@ =~= rest.take(k - from));
            assert(rest.skip(k - from + 1) =~= s@.skip(k + 1));
            assert(split(rest, x) == seq![rest.take(k - from)] + split(rest.skip(k - from + 1), x));
            assert(done.push(piece@) + split(s@.skip(k + 1), x) =~= done + split(rest, x));
            done = done.push(piece@);
        }
        out.push(piece);
        assert(out@.map_values(|v: Vec<char>| v@) =~= done);
        from = k + 1;
    }
}

/// The lines of `s`, as `str::lines` gives them.
pub fn split_lines(s: &[char]) -> (out: Vec<Vec<char>>)
    ensures
        out@.map_values(|v: Vec<char>| v@) == lines(s@),
{
    let mut out: Vec<Vec<char>> = Vec::new();
    let mut from: usize = 0;
    let ghost mut done: Seq<Seq<char>> = seq![];
    assert(s@.skip(0) =~= s@);
    while from < s.len()
        invariant
            from <= s@.len(),
            out@.map_values(|v: Vec<char>| v@) == done,
            done + lines(s@.skip(from as int)) == lines(s@),
        decreases s@.len() - from,
    {
        let k = find_char(s, from, '\n');
        let ghost rest = s@.skip(from as int);
        if k == s.len() {
            let piece = copy_range(s, from, k);
            proof {
                assert(piece@ =~= rest);
                assert(lines(rest) == seq![rest]);
                assert(s@.skip(s@.len() as int) =~= Seq::<char>::empty());
                assert(done.push(piece@) + lines(s@.skip(k as int)) =~= done + lines(rest));
                done = done.push(piece@);
            }
            out.push(piece);
            assert(out@.map_values(|v: Vec<char>| v@) =~= done);
            from = k;
        } else {
            let end = if k > from && s[k - 1] == '\r' { k - 1 } else { k };
            let piece = copy_range(s, from, end);
            proof {
                assert(piece@ =~= strip_cr(rest.take(k - from)));
                assert(rest.skip(k - from + 1) =~= s@.skip(k + 1));
                assert(lines(rest) == seq![strip_cr(rest.take(k - from))] + lines(rest.skip(k - from + 1)));
                assert(done.push(piece@) + lines(s@.skip(k + 1)) =~= done + lines(rest));
                done = done.push(piece@);
            }
            out.push(piece);
            assert(out@.map_values(|v: Vec<char>| v@) =~= done);
            from = k + 1;
        }
    }
    proof {
        assert(s@.skip(from as int) =~= Seq::<char>::empty());
        assert(done + lines(Seq::<char>::empty()) =~= done);
    }
    out
}

/// Whether `p` begins `s`.
pub fn starts_with_chars(s: &[char], p: &[char]) -> (b: bool)
    ensures
        b == has_prefix(s@, p@),
{
    if p.len() > s.len() {
        return false;
    }
    let mut i: usize = 0;
    while i < p.len()
        invariant
            p@.len() <= s@.len(),
            i <= p@.len(),
            forall|j: int| 0 <= j < i ==> s@[j] == p@[j],
        decreases p@.len() - i,
    {
        if s[i] != p[i] {
            assert(s@.take(p@.len() as int)[i as int] != p@[i as int]);
            return false;
        }
        i += 1;
    }
    assert(s@.take(p@.len() as int) =~= p@);
    true
}

/// Whether `p` begins `s` at position `at`.
pub fn matches_at(s: &[char], p: &[char], at: usize) -> (b: bool)
    requires
        at <= s@.len(),
    ensures
        b == has_prefix(s@.skip(at as int), p@),
        b == occurs_at(s@, p@, at as int),
{
    let n = s.len();
    if p.len() > n - at {
        return false;
    }
    let mut i: usize = 0;
    while i < p.len()
        invariant
            n == s@.len(),
            at <= s@.len(),
            p@.len() <= s@.len() - at,
            i <= p@.len(),
            forall|j: int| 0 <= j < i ==> s@[at + j] == p@[j],
        decreases p@.len() - i,
    {
        assert(at + i < s@.len());
        if s[at + i] != p[i] {
            assert(s@.skip(at as int).take(p@.len() as int)[i as int] != p@[i as int]);
            assert(s@.subrange(at as int, at + p@.len())[i as int] != p@[i as int]);
            return false;
        }
        i += 1;
    }
    assert(s@.skip(at as int).take(p@.len() as int) =~= p@);
    assert(s@.subrange(at as int, at + p@.len()) =~= p@);
    true
}

/// Where `p` first occurs in `s`, or `None`.
pub fn find_chars(s: &[char], p: &[char]) -> (r: Option<usize>)
    ensures
        match r {
            Some(i) => find_seq(s@, p@) == i && i + p@.len() <= s@.len(),
            None => find_seq(s@, p@) == -1,
        },
{
    let mut k: usize = 0;
    loop
        invariant
            k <= s@.len(),
            forall|j: int| 0 <= j < k ==> !has_prefix(#[trigger] s@.skip(j), p@),
        decreases s@.len() - k,
    {
        if matches_at(s, p, k) {
            proof {
                lemma_find_seq_at(s@, p@, k as int);
            }
            return Some(k);
        }
        if k == s.len() {
            proof {
                lemma_find_seq_none(s@, p@);
            }
            return None;
        }
        k += 1;
    }
}

/// Whether `p` occurs anywhere in `s`.
pub fn contains_chars(s: &[char], p: &[char]) -> (b: bool)
    ensures
        b == contains_seq(s@, p@),
{
    let mut k: usize = 0;
    loop
        invariant
            k <= s@.len(),
            forall|j: int| 0 <= j < k ==> !occurs_at(s@, p@, j),
        decreases s@.len() - k,
    {
        if matches_at(s, p, k) {
            return true;
        }
        if k == s.len() {
            return false;
        }
        k += 1;
    }
}

/// Whether `a` sorts before `b`, byte by byte.
pub fn bytes_less(a: &[u8], b: &[u8]) -> (r: bool)
    ensures
        r == bytes_lt(a@, b@),
{
    let mut i: usize = 0;
    assert(a@.skip(0) =~= a@);
    assert(b@.skip(0) =~= b@);
    loop
        invariant
            i <= a@.len(),
            i <= b@.len(),
            bytes_lt(a@.skip(i as int), b@.skip(i as int)) == bytes_lt(a@, b@),
        decreases a@.len() - i,
    {
        if i == a.len() {
            return i < b.len();
        }
        if i == b.len() {
            return false;
        }
        if a[i] < b[i] {
            return true;
        }
        if a[i] > b[i] {
            return false;
        }
        assert(a@.skip(i as int).drop_first() =~= a@.skip(i + 1));
        assert(b@.skip(i as int).drop_first() =~= b@.skip(i + 1));
        i += 1;
    }
}

/// Whether the character is a control character, as `char::is_control` has it.
pub fn char_is_control(c: char) -> (b: bool)
    ensures
        b == is_control(c),
{
    let v = c as u32;
    v < 0x20 || (0x7f <= v && v < 0xa0)
}

/// Whether no character of `s` is a control character.
pub fn chars_free_of_control(s: &[char]) -> (b: bool)
    ensures
        b == no_control(s@),
{
    let mut i: usize = 0;
    while i < s.len()
        invariant
            i <= s@.len(),
            forall|j: int| 0 <= j < i ==> !is_control(#[trigger] s@[j]),
        decreases s@.len() - i,
    {
        if char_is_control(s[i]) {
            return false;
        }
        i += 1;
    }
    true
}

/// The value of an ASCII hexadecimal digit byte, or `None`.
pub fn hex_digit(b: u8) -> (r: Option<u8>)
    ensures
        r is Some <==> is_hex_byte(b),
        r matches Some(v) ==> v as int == hex_value(b) && v < 16,
{
    if 48 <= b && b <= 57 {
        Some(b - 48)
    } else if 97 <= b && b <= 102 {
        Some(b - 87)
    } else if 65 <= b && b <= 70 {
        Some(b - 55)
    } else {
        None
    }
}

} // verus!

verus! {

/// The characters `char::is_whitespace` is true of: those with Unicode's White_Space property.
pub open spec fn is_white_space(c: char) -> bool {
    let v = c as u32;
    (9 <= v && v <= 13) || v == 32 || v == 0x85 || v == 0xa0 || v == 0x1680 || (0x2000 <= v && v
        <= 0x200a) || v == 0x2028 || v == 0x2029 || v == 0x202f || v == 0x205f || v == 0x3000
}

/// `s` without its leading white space.
pub open spec fn trim_start(s: Seq<char>) -> Seq<char>
    decreases s.len(),
{
    if s.len() > 0 && is_white_space(s[0]) {
        trim_start(s.drop_first())
    } else {
        s
    }
}

/// `s` without its trailing white space.
pub open spec fn trim_end(s: Seq<char>) -> Seq<char>
    decreases s.len(),
{
    if s.len() > 0 && is_white_space(s.last()) {
        trim_end(s.drop_last())
    } else {
        s
    }
}

/// `s` without white space at either end, as `str::trim` gives it.
pub open spec fn trim(s: Seq<char>) -> Seq<char> {
    trim_end(trim_start(s))
}

pub proof fn lemma_trim_start_at(s: Seq<char>, a: int)
    requires
        0 <= a <= s.len(),
        forall|j: int| 0 <= j < a ==> is_white_space(#[trigger] s[j]),
        a < s.len() ==> !is_white_space(s[a]),
    ensures
        trim_start(s) == s.skip(a),
    decreases s.len(),
{
    if a == 0 {
        assert(s.skip(0) =~= s);
    } else {
        let t = s.drop_first();
        assert forall|j: int| 0 <= j < a - 1 implies is_white_space(#[trigger] t[j]) by {
            assert(t[j] == s[j + 1]);
        }
        if a - 1 < t.len() {
            assert(t[a - 1] == s[a]);
        }
        lemma_trim_start_at(t, a - 1);
        assert(t.skip(a - 1) =~= s.skip(a));
    }
}

pub proof fn lemma_trim_end_at(s: Seq<char>, b: int)
    requires
        0 <= b <= s.len(),
        forall|j: int| b <= j < s.len() ==> is_white_space(#[trigger] s[j]),
        b > 0 ==> !is_white_space(s[b - 1]),
    ensures
        trim_end(s) == s.take(b),
    decreases s.len(),
{
    if b == s.len() {
        assert(s.take(b) =~= s);
    } else {
        let t = s.drop_last();
        assert forall|j: int| b <= j < t.len() implies is_white_space(#[trigger] t[j]) by {
            assert(t[j] == s[j]);
        }
        if b > 0 {
            assert(t[b - 1] == s[b - 1]);
        }
        assert(is_white_space(s[s.len() - 1]));
        lemma_trim_end_at(t, b);
        assert(t.take(b) =~= s.take(b));
    }
}

/// Whether the character has the White_Space property.
pub fn char_is_white_space(c: char) -> (b: bool)
    ensures
        b == is_white_space(c),
{
    let v = c as u32;
    (9 <= v && v <= 13) || v == 32 || v == 0x85 || v == 0xa0 || v == 0x1680 || (0x2000 <= v && v
        <= 0x200a) || v == 0x2028 || v == 0x2029 || v == 0x202f || v == 0x205f || v == 0x3000
}

/// `s` without white space at either end.
pub fn trim_chars(s: &[char]) -> (out: Vec<char>)
    ensures
        out@ == trim(s@),
{
    let n = s.len();
    let mut a: usize = 0;
    while a < n && char_is_white_space(s[a])
        invariant
            n == s@.len(),
            a <= n,
            forall|j: int| 0 <= j < a ==> is_white_space(#[trigger] s@[j]),
        decreases n - a,
    {
        a += 1;
    }
    proof {
        lemma_trim_start_at(s@, a as int);
    }
    let mut b: usize = n;
    while b > a && char_is_white_space(s[b - 1])
        invariant
            n == s@.len(),
            a <= b <= n,
            forall|j: int| b <= j < n ==> is_white_space(#[trigger] s@[j]),
        decreases b,
    {
        b -= 1;
    }
    let ghost t = s@.skip(a as int);
    proof {
        assert forall|j: int| b - a <= j < t.len() implies is_white_space(#[trigger] t[j]) by {
            assert(t[j] == s@[j + a]);
        }
        if b > a {
            assert(t[b - a - 1] == s@[b - 1]);
        }
        lemma_trim_end_at(t, b - a);
        assert(t.take(b - a) =~= s@.subrange(a as int, b as int));
    }
    copy_range(s, a, b)
}

/// `s` without its first `p.len()` characters, when they are `p`.
pub open spec fn strip_prefix<A>(s: Seq<A>, p: Seq<A>) -> Option<Seq<A>> {
    if has_prefix(s, p) {
        Some(s.skip(p.len() as int))
    } else {
        None
    }
}

/// `s` without the prefix `p`, when it has it.
pub fn strip_prefix_chars(s: &[char], p: &str) -> (r: Option<Vec<char>>)
    ensures
        match strip_prefix(s@, p@) {
            Some(t) => r matches Some(v) && v@ == t,
            None => r is None,
        },
{
    let pc = to_chars(p);
    if starts_with_chars(s, pc.as_slice()) {
        Some(copy_range(s, pc.len(), s.len()))
    } else {
        None
    }
}

/// Whether two byte strings are the same.
pub fn bytes_equal(a: &[u8], b: &[u8]) -> (r: bool)
    ensures
        r == (a@ == b@),
{
    if a.len() != b.len() {
        return false;
    }
    let mut i: usize = 0;
    while i < a.len()
        invariant
            a@.len() == b@.len(),
            i <= a@.len(),
            forall|j: int| 0 <= j < i ==> a@[j] == b@[j],
        decreases a@.len() - i,
    {
        if a[i] != b[i] {
            return false;
        }
        i += 1;
    }
    assert(a@ =~= b@);
    true
}

/// Whether two character sequences are the same.
pub fn chars_equal(a: &[char], b: &[char]) -> (r: bool)
    ensures
        r == (a@ == b@),
{
    if a.len() != b.len() {
        return false;
    }
    let mut i: usize = 0;
    while i < a.len()
        invariant
            a@.len() == b@.len(),
            i <= a@.len(),
            forall|j: int| 0 <= j < i ==> a@[j] == b@[j],
        decreases a@.len() - i,
    {
        if a[i] != b[i] {
            return false;
        }
        i += 1;
    }
    assert(a@ =~= b@);
    true
}

/// Whether the characters are exactly the literal's.
pub fn chars_are(a: &[char], lit: &str) -> (r: bool)
    ensures
        r == (a@ == lit@),
{
    let l = to_chars(lit);
    chars_equal(a, l.as_slice())
}

} // verus!

verus! {

/// A decimal digit's character.
pub open spec fn digit_char(d: int) -> char {
    (48 + d) as char
}

/// `n` in decimal, as `format!("{n}")` writes it.
pub open spec fn decimal(n: nat) -> Seq<char>
    decreases n,
{
    if n < 10 {
        seq![digit_char(n as int)]
    } else {
        decimal(n / 10) + seq![digit_char((n % 10) as int)]
    }
}

/// `n` written in decimal.
pub fn decimal_text(n: u64) -> (s: String)
    ensures
        s@ == decimal(n as nat),
{
    // Digits are found least significant first, then laid out in reading order.
    let mut rev: Vec<char> = Vec::new();
    let mut m = n;
    let ghost mut tail: Seq<char> = seq![];
    loop
        invariant_except_break
            decimal(n as nat) == decimal(m as nat) + tail,
        invariant
            rev@ == tail.reverse(),
        ensures
            decimal(n as nat) == tail,
        decreases m,
    {
        let d = (m % 10) as u8;
        let c = (48 + d) as char;
        assert(c == digit_char((m % 10) as int));
        if m < 10 {
            proof {
                assert(decimal(m as nat) == seq![digit_char(m as int)]);
                assert(m % 10 == m);
                tail = seq![c] + tail;
                assert(rev@.push(c) =~= tail.reverse());
            }
            rev.push(c);
            break;
        }
        proof {
            assert(decimal(m as nat) == decimal((m / 10) as nat) + seq![digit_char((m % 10) as int)]);
            assert(decimal(n as nat) =~= decimal((m / 10) as nat) + (seq![c] + tail));
            tail = seq![c] + tail;
            assert(rev@.push(c) =~= tail.reverse());
        }
        rev.push(c);
        m = m / 10;
    }
    let mut out: Vec<char> = Vec::new();
    let mut i = rev.len();
    while i > 0
        invariant
            i <= rev@.len(),
            rev@ == tail.reverse(),
            out@ == rev@.subrange(i as int, rev@.len() as int).reverse(),
        decreases i,
    {
        i -= 1;
        out.push(rev[i]);
        assert(out@ =~= rev@.subrange(i as int, rev@.len() as int).reverse());
    }
    proof {
        assert(rev@.subrange(0, rev@.len() as int) =~= rev@);
        assert(tail.reverse().reverse() =~= tail);
        assert(decimal(n as nat) =~= tail);
    }
    from_chars(out.as_slice())
}

} // verus!
